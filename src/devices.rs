//! The devices the daemon drives, and the lifecycle events it sends to IPC
//! clients when one is added or removed.
use vstd::prelude::*;
use crate::panel::{copy_string, strings_view, lemma_strings_view_push};
use crate::socket::{SocketManager, enqueue};

verus! {

/// A hexadecimal digit character.
pub open spec fn hex_char(d: nat) -> char {
    "0123456789abcdef"@[d as int]
}

/// How one character is written inside a JSON string.
pub open spec fn escape_char(c: char) -> Seq<char> {
    if c == '"' {
        seq!['\\', '"']
    } else if c == '\\' {
        seq!['\\', '\\']
    } else if (c as u32) < 32 {
        seq!['\\', 'u', '0', '0', hex_char((c as u32 / 16) as nat), hex_char((c as u32 % 16) as nat)]
    } else {
        seq![c]
    }
}

/// Text escaped for a JSON string.
pub open spec fn escape_text(s: Seq<char>) -> Seq<char>
    decreases s.len(),
{
    if s.len() == 0 {
        Seq::empty()
    } else {
        escape_text(s.drop_last()) + escape_char(s.last())
    }
}

/// Events about devices, for IPC clients.
pub enum GlobalEvent {
    DeviceConnected { serial_number: String },
    DeviceDisconnected { serial_number: String },
}

/// The JSON text of an event.
pub open spec fn event_text(e: GlobalEvent) -> Seq<char> {
    match e {
        GlobalEvent::DeviceConnected { serial_number } =>
            "{\"DeviceConnected\":{\"serial_number\":\""@ + escape_text(serial_number@) + "\"}}"@,
        GlobalEvent::DeviceDisconnected { serial_number } =>
            "{\"DeviceDisconnected\":{\"serial_number\":\""@ + escape_text(serial_number@) + "\"}}"@,
    }
}

fn append_escaped(out: &mut String, s: &String)
    ensures
        final(out)@ == old(out)@ + escape_text(s@),
{
    let ghost o0 = out@;
    let n = s.as_str().unicode_len();
    let hex = "0123456789abcdef";
    proof { reveal_strlit("0123456789abcdef"); }
    let mut i: usize = 0;
    while i < n
        invariant
            n == s@.len(),
            i <= n,
            hex@ == "0123456789abcdef"@,
            hex@.len() == 16,
            out@ == o0 + escape_text(s@.subrange(0, i as int)),
        decreases n - i,
    {
        let c = s.as_str().get_char(i);
        let ghost o1 = out@;
        if c == '"' {
            out.append("\\\"");
            proof { reveal_strlit("\\\""); }
        } else if c == '\\' {
            out.append("\\\\");
            proof { reveal_strlit("\\\\"); }
        } else if (c as u32) < 32 {
            out.append("\\u00");
            proof { reveal_strlit("\\u00"); }
            let hi = (c as u32 / 16) as usize;
            let lo = (c as u32 % 16) as usize;
            out.append(hex.substring_char(hi, hi + 1));
            out.append(hex.substring_char(lo, lo + 1));
        } else {
            out.append(s.as_str().substring_char(i, i + 1));
        }
        assert(out@ =~= o1 + escape_char(c));
        assert(s@.subrange(0, i + 1).drop_last() =~= s@.subrange(0, i as int));
        i += 1;
    }
    assert(s@.subrange(0, i as int) =~= s@);
}

/// The JSON text of an event.
pub fn encode_event(e: &GlobalEvent) -> (r: String)
    ensures
        r@ == event_text(*e),
{
    match e {
        GlobalEvent::DeviceConnected { serial_number } => {
            let mut out = String::from_str("{\"DeviceConnected\":{\"serial_number\":\"");
            append_escaped(&mut out, serial_number);
            out.append("\"}}");
            out
        },
        GlobalEvent::DeviceDisconnected { serial_number } => {
            let mut out = String::from_str("{\"DeviceDisconnected\":{\"serial_number\":\"");
            append_escaped(&mut out, serial_number);
            out.append("\"}}");
            out
        },
    }
}

/// The serial numbers of the devices the daemon drives, in order of adding.
pub struct DeviceList {
    pub serials: Vec<String>,
}

impl DeviceList {
    /// No devices.
    pub fn new() -> (r: DeviceList)
        ensures
            r.serials@.len() == 0,
    {
        DeviceList { serials: Vec::new() }
    }

    fn position(&self, serial: &String) -> (r: Option<usize>)
        ensures
            match r {
                Some(i) => i < self.serials@.len() && self.serials@[i as int]@ == serial@,
                None => !strings_view(self.serials@).contains(serial@),
            },
    {
        let mut i: usize = 0;
        while i < self.serials.len()
            invariant
                i <= self.serials@.len(),
                forall|j: int| 0 <= j < i ==> self.serials@[j]@ != serial@,
            decreases self.serials@.len() - i,
        {
            if self.serials[i] == *serial {
                return Some(i);
            }
            i += 1;
        }
        proof {
            if strings_view(self.serials@).contains(serial@) {
                let j = choose|j: int| 0 <= j < strings_view(self.serials@).len() && strings_view(self.serials@)[j] == serial@;
                assert(self.serials@[j]@ == serial@);
            }
        }
        None
    }

    /// Adds a device and tells every IPC client with a `DeviceConnected`
    /// event. Fails, changing nothing, where the device is already there.
    pub fn add_device(&mut self, sockets: &mut SocketManager, serial: String) -> (r: bool)
        ensures
            r == !strings_view(old(self).serials@).contains(serial@),
            r ==> strings_view(final(self).serials@) == strings_view(old(self).serials@).push(serial@),
            !r ==> final(self).serials@ == old(self).serials@ && *final(sockets) == *old(sockets),
            r ==> final(sockets).capacity == old(sockets).capacity
                && final(sockets).queues@.len() == old(sockets).queues@.len()
                && forall|i: int| 0 <= i < old(sockets).queues@.len() ==>
                    #[trigger] strings_view(final(sockets).queues@[i]@) == enqueue(strings_view(old(sockets).queues@[i]@),
                        event_text(GlobalEvent::DeviceConnected { serial_number: serial }), old(sockets).capacity as nat),
    {
        match self.position(&serial) {
            Some(i) => {
                assert(strings_view(self.serials@)[i as int] == serial@);
                return false;
            },
            None => {},
        }
        let e = GlobalEvent::DeviceConnected { serial_number: copy_string(&serial) };
        let text = encode_event(&e);
        sockets.send_event(&text);
        let ghost s0 = self.serials@;
        let ghost sv = serial;
        self.serials.push(serial);
        proof { lemma_strings_view_push(s0, sv); }
        true
    }

    /// Removes a device and tells every IPC client with a
    /// `DeviceDisconnected` event. Fails, changing nothing, where the device
    /// is not there.
    pub fn remove_device(&mut self, sockets: &mut SocketManager, serial: &String) -> (r: bool)
        ensures
            r == strings_view(old(self).serials@).contains(serial@),
            r ==> exists|i: int| 0 <= i < old(self).serials@.len() && old(self).serials@[i]@ == serial@
                && #[trigger] final(self).serials@ == old(self).serials@.remove(i),
            !r ==> final(self).serials@ == old(self).serials@ && *final(sockets) == *old(sockets),
            r ==> final(sockets).capacity == old(sockets).capacity
                && final(sockets).queues@.len() == old(sockets).queues@.len()
                && forall|i: int| 0 <= i < old(sockets).queues@.len() ==>
                    #[trigger] strings_view(final(sockets).queues@[i]@) == enqueue(strings_view(old(sockets).queues@[i]@),
                        event_text(GlobalEvent::DeviceDisconnected { serial_number: *serial }), old(sockets).capacity as nat),
    {
        match self.position(serial) {
            Some(i) => {
                proof { assert(strings_view(self.serials@)[i as int] == serial@); }
                let e = GlobalEvent::DeviceDisconnected { serial_number: copy_string(serial) };
                let text = encode_event(&e);
                sockets.send_event(&text);
                self.serials.remove(i);
                true
            },
            None => false,
        }
    }
}

} // verus!
