//! Queue administration: argument vectors for the external `dma-ctl` tool
//! and the lifecycle bookkeeping of a managed queue.
//!
//! The library computes exactly which commands administer a queue and which
//! device node to open; invoking the tool and opening the node are left to
//! the unverified shell around the library.

use vstd::prelude::*;
use vstd::string::{StrSliceExecFns, StringExecFns};

verus! {

/// Direction of a stream queue.
#[derive(Debug, Clone, Copy, PartialEq, Eq, Structural)]
pub enum QueueDir {
    C2h,
    H2c,
}

/// The characters of the direction argument handed to `dma-ctl`.
pub open spec fn spec_dir_str(dir: QueueDir) -> Seq<char> {
    match dir {
        QueueDir::C2h => "c2h"@,
        QueueDir::H2c => "h2c"@,
    }
}

impl QueueDir {
    /// The direction argument as `dma-ctl` expects it.
    pub fn as_str(&self) -> (s: &'static str)
        ensures
            s@ == spec_dir_str(*self),
    {
        match self {
            QueueDir::C2h => "c2h",
            QueueDir::H2c => "h2c",
        }
    }
}

/// The decimal digit `d` as a character.
pub open spec fn spec_digit_char(d: int) -> char {
    if d == 0 {
        '0'
    } else if d == 1 {
        '1'
    } else if d == 2 {
        '2'
    } else if d == 3 {
        '3'
    } else if d == 4 {
        '4'
    } else if d == 5 {
        '5'
    } else if d == 6 {
        '6'
    } else if d == 7 {
        '7'
    } else if d == 8 {
        '8'
    } else {
        '9'
    }
}

/// The usual decimal rendering of `n`, most significant digit first and
/// without leading zeros (`0` renders as "0").
pub open spec fn spec_dec_chars(n: nat) -> Seq<char>
    decreases n,
{
    if n < 10 {
        seq![spec_digit_char(n as int)]
    } else {
        spec_dec_chars(n / 10).push(spec_digit_char((n % 10) as int))
    }
}

/// One decimal digit as a string slice.
fn digit_str(d: usize) -> (s: &'static str)
    requires
        d < 10,
    ensures
        s@ == seq![spec_digit_char(d as int)],
{
    proof {
        reveal_strlit("0");
        reveal_strlit("1");
        reveal_strlit("2");
        reveal_strlit("3");
        reveal_strlit("4");
        reveal_strlit("5");
        reveal_strlit("6");
        reveal_strlit("7");
        reveal_strlit("8");
        reveal_strlit("9");
    }
    let s: &'static str = match d {
        0 => "0",
        1 => "1",
        2 => "2",
        3 => "3",
        4 => "4",
        5 => "5",
        6 => "6",
        7 => "7",
        8 => "8",
        _ => "9",
    };
    proof {
        assert(s@ =~= seq![spec_digit_char(d as int)]);
    }
    s
}

/// Render `n` in decimal.
pub fn usize_to_dec_string(n: usize) -> (s: String)
    ensures
        s@ == spec_dec_chars(n as nat),
    decreases n,
{
    if n < 10 {
        String::from_str(digit_str(n))
    } else {
        let mut s = usize_to_dec_string(n / 10);
        s.append(digit_str(n % 10));
        proof {
            assert(s@ =~= spec_dec_chars(n as nat));
        }
        s
    }
}

/// The character sequences of an argument vector.
pub open spec fn strings_view(args: Seq<String>) -> Seq<Seq<char>> {
    args.map_values(|s: String| s@)
}

/// `dma-ctl` arguments that add a streaming-mode queue.
pub open spec fn spec_add_args(device: Seq<char>, queue: nat, dir: QueueDir) -> Seq<Seq<char>> {
    seq![
        device,
        "q"@,
        "add"@,
        "idx"@,
        spec_dec_chars(queue),
        "mode"@,
        "st"@,
        "dir"@,
        spec_dir_str(dir),
    ]
}

/// `dma-ctl` arguments that start a queue; an H2C queue additionally
/// fetches credit.
pub open spec fn spec_start_args(device: Seq<char>, queue: nat, dir: QueueDir) -> Seq<Seq<char>> {
    let base = seq![device, "q"@, "start"@, "idx"@, spec_dec_chars(queue), "dir"@, spec_dir_str(
        dir,
    )];
    if dir is H2c {
        base + seq!["fetch_credit"@, "h2c"@]
    } else {
        base
    }
}

/// `dma-ctl` arguments that stop a queue.
pub open spec fn spec_stop_args(device: Seq<char>, queue: nat, dir: QueueDir) -> Seq<Seq<char>> {
    seq![device, "q"@, "stop"@, "idx"@, spec_dec_chars(queue), "dir"@, spec_dir_str(dir)]
}

/// `dma-ctl` arguments that delete a queue.
pub open spec fn spec_del_args(device: Seq<char>, queue: nat, dir: QueueDir) -> Seq<Seq<char>> {
    seq![device, "q"@, "del"@, "idx"@, spec_dec_chars(queue), "dir"@, spec_dir_str(dir)]
}

/// Arguments for `dma-ctl` to add `queue` on `device` in streaming mode.
pub fn queue_add(device: &str, queue: usize, dir: QueueDir) -> (args: Vec<String>)
    ensures
        strings_view(args@) == spec_add_args(device@, queue as nat, dir),
{
    let mut args: Vec<String> = Vec::new();
    args.push(device.to_string());
    args.push(String::from_str("q"));
    args.push(String::from_str("add"));
    args.push(String::from_str("idx"));
    args.push(usize_to_dec_string(queue));
    args.push(String::from_str("mode"));
    args.push(String::from_str("st"));
    args.push(String::from_str("dir"));
    args.push(String::from_str(dir.as_str()));
    proof {
        assert(strings_view(args@) =~= spec_add_args(device@, queue as nat, dir));
    }
    args
}

/// Arguments for `dma-ctl` to start `queue` on `device`.
pub fn queue_start(device: &str, queue: usize, dir: QueueDir) -> (args: Vec<String>)
    ensures
        strings_view(args@) == spec_start_args(device@, queue as nat, dir),
{
    let mut args: Vec<String> = Vec::new();
    args.push(device.to_string());
    args.push(String::from_str("q"));
    args.push(String::from_str("start"));
    args.push(String::from_str("idx"));
    args.push(usize_to_dec_string(queue));
    args.push(String::from_str("dir"));
    args.push(String::from_str(dir.as_str()));
    match dir {
        QueueDir::C2h => {}
        QueueDir::H2c => {
            args.push(String::from_str("fetch_credit"));
            args.push(String::from_str("h2c"));
        }
    }
    proof {
        assert(strings_view(args@) =~= spec_start_args(device@, queue as nat, dir));
    }
    args
}

/// Arguments for `dma-ctl` to stop `queue` on `device`.
pub fn queue_stop(device: &str, queue: usize, dir: QueueDir) -> (args: Vec<String>)
    ensures
        strings_view(args@) == spec_stop_args(device@, queue as nat, dir),
{
    let mut args: Vec<String> = Vec::new();
    args.push(device.to_string());
    args.push(String::from_str("q"));
    args.push(String::from_str("stop"));
    args.push(String::from_str("idx"));
    args.push(usize_to_dec_string(queue));
    args.push(String::from_str("dir"));
    args.push(String::from_str(dir.as_str()));
    proof {
        assert(strings_view(args@) =~= spec_stop_args(device@, queue as nat, dir));
    }
    args
}

/// Arguments for `dma-ctl` to delete `queue` on `device`.
pub fn queue_del(device: &str, queue: usize, dir: QueueDir) -> (args: Vec<String>)
    ensures
        strings_view(args@) == spec_del_args(device@, queue as nat, dir),
{
    let mut args: Vec<String> = Vec::new();
    args.push(device.to_string());
    args.push(String::from_str("q"));
    args.push(String::from_str("del"));
    args.push(String::from_str("idx"));
    args.push(usize_to_dec_string(queue));
    args.push(String::from_str("dir"));
    args.push(String::from_str(dir.as_str()));
    proof {
        assert(strings_view(args@) =~= spec_del_args(device@, queue as nat, dir));
    }
    args
}

/// The character sequences of a command list.
pub open spec fn commands_view(cmds: Seq<Vec<String>>) -> Seq<Seq<Seq<char>>> {
    cmds.map_values(|c: Vec<String>| strings_view(c@))
}

/// The device node path `/dev/<device>-ST-<queue>`.
pub open spec fn spec_device_path(device: Seq<char>, queue: nat) -> Seq<char> {
    "/dev/"@ + device + "-ST-"@ + spec_dec_chars(queue)
}

/// Lifecycle bookkeeping of one managed queue: which administration
/// commands bring it up and tear it down, and whether teardown is still
/// owed.  Teardown commands are handed out exactly once, so running them on
/// drop after an explicit stop cannot double-stop the queue.
pub struct ManagedQueue {
    device: String,
    queue: usize,
    dir: QueueDir,
    active: bool,
}

impl ManagedQueue {
    /// The device name this queue belongs to.
    pub closed spec fn device_chars(&self) -> Seq<char> {
        self.device@
    }

    /// The queue index.
    pub closed spec fn queue_idx(&self) -> nat {
        self.queue as nat
    }

    /// The queue direction.
    pub closed spec fn direction(&self) -> QueueDir {
        self.dir
    }

    /// Whether teardown is still owed.
    pub closed spec fn is_active(&self) -> bool {
        self.active
    }

    /// Begin managing `queue` on `device`: the queue owes a teardown until
    /// [`ManagedQueue::teardown_commands`] hands its commands out.
    pub fn begin(device: &str, queue: usize, dir: QueueDir) -> (q: ManagedQueue)
        ensures
            q.device_chars() == device@,
            q.queue_idx() == queue as nat,
            q.direction() == dir,
            q.is_active(),
    {
        ManagedQueue { device: device.to_string(), queue, dir, active: true }
    }

    /// The commands that add and start this queue, in order.
    pub fn startup_commands(&self) -> (cmds: Vec<Vec<String>>)
        ensures
            commands_view(cmds@) == seq![
                spec_add_args(self.device_chars(), self.queue_idx(), self.direction()),
                spec_start_args(self.device_chars(), self.queue_idx(), self.direction()),
            ],
    {
        let mut cmds: Vec<Vec<String>> = Vec::new();
        cmds.push(queue_add(self.device.as_str(), self.queue, self.dir));
        cmds.push(queue_start(self.device.as_str(), self.queue, self.dir));
        proof {
            assert(commands_view(cmds@) =~= seq![
                spec_add_args(self.device_chars(), self.queue_idx(), self.direction()),
                spec_start_args(self.device_chars(), self.queue_idx(), self.direction()),
            ]);
        }
        cmds
    }

    /// The commands that stop and delete this queue — or none, if teardown
    /// has already been handed out.  A second call always returns an empty
    /// list, which makes drop-time teardown after an explicit stop a no-op.
    pub fn teardown_commands(&mut self) -> (cmds: Vec<Vec<String>>)
        ensures
            final(self).device_chars() == old(self).device_chars(),
            final(self).queue_idx() == old(self).queue_idx(),
            final(self).direction() == old(self).direction(),
            !final(self).is_active(),
            old(self).is_active() ==> commands_view(cmds@) == seq![
                spec_stop_args(old(self).device_chars(), old(self).queue_idx(), old(self).direction()),
                spec_del_args(old(self).device_chars(), old(self).queue_idx(), old(self).direction()),
            ],
            !old(self).is_active() ==> cmds@ == Seq::<Vec<String>>::empty(),
    {
        let mut cmds: Vec<Vec<String>> = Vec::new();
        if !self.active {
            proof {
                assert(cmds@ =~= Seq::<Vec<String>>::empty());
            }
            return cmds;
        }
        self.active = false;
        cmds.push(queue_stop(self.device.as_str(), self.queue, self.dir));
        cmds.push(queue_del(self.device.as_str(), self.queue, self.dir));
        proof {
            assert(commands_view(cmds@) =~= seq![
                spec_stop_args(old(self).device_chars(), old(self).queue_idx(), old(self).direction()),
                spec_del_args(old(self).device_chars(), old(self).queue_idx(), old(self).direction()),
            ]);
        }
        cmds
    }

    /// The device name.
    pub fn device(&self) -> (s: &str)
        ensures
            s@ == self.device_chars(),
    {
        self.device.as_str()
    }

    /// The queue index.
    pub fn queue(&self) -> (n: usize)
        ensures
            n as nat == self.queue_idx(),
    {
        self.queue
    }

    /// Whether teardown is still owed.
    pub fn active(&self) -> (b: bool)
        ensures
            b == self.is_active(),
    {
        self.active
    }

    /// The path of the character-device node backing this queue.
    pub fn device_path(&self) -> (s: String)
        ensures
            s@ == spec_device_path(self.device_chars(), self.queue_idx()),
    {
        device_path(self.device.as_str(), self.queue)
    }
}

/// The path of the character-device node `/dev/<device>-ST-<queue>`.
pub fn device_path(device: &str, queue: usize) -> (s: String)
    ensures
        s@ == spec_device_path(device@, queue as nat),
{
    let mut s = String::from_str("/dev/");
    s.append(device);
    s.append("-ST-");
    let idx = usize_to_dec_string(queue);
    s.append(idx.as_str());
    s
}

} // verus!
