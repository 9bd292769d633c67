//! Which serial ports may have a controller.
use vstd::prelude::*;
use vstd::slice::slice_subrange;
use crate::text::{after_prefix, same_text, string_views, strip_prefix, to_chars};

verus! {

/// The kinds of systems that name their ports differently.
#[derive(Clone, Copy, Debug, PartialEq, Eq, Structural)]
pub enum Os {
    Linux,
    MacOs,
    Other,
}

/// Whether `t` stands somewhere in `s`.
pub open spec fn has_text(s: Seq<char>, t: Seq<char>) -> bool {
    exists|k: int| 0 <= k <= s.len() - t.len() && #[trigger] s.subrange(k, k + t.len()) == t
}

fn contains_text(s: &[char], t: &str) -> (yes: bool)
    ensures
        yes == has_text(s@, t@),
{
    let n: usize = to_chars(t).len();
    if n == 0 {
        assert(s@.subrange(0int, 0int + t@.len()) == t@);
        return true;
    }
    if n > s.len() {
        return false;
    }
    for k in 0..s.len() - n + 1
        invariant
            n == t@.len(),
            n <= s@.len(),
            forall|j: int| 0 <= j < k ==> #[trigger] s@.subrange(j, j + n) != t@,
    {
        if same_text(slice_subrange(s, k, k + n), t) {
            assert(s@.subrange(k as int, k + n) == t@);
            return true;
        }
    }
    false
}

/// Whether the port with this name is one of a USB adapter.
pub open spec fn usable(os: Os, name: Seq<char>) -> bool {
    match os {
        Os::Linux => after_prefix(name, "/dev/ttyUSB"@) is Some || after_prefix(
            name,
            "/dev/ttyACM"@,
        ) is Some,
        Os::MacOs => has_text(name, "usbserial"@) || has_text(name, "usbmodem"@),
        Os::Other => true,
    }
}

fn is_usable(os: Os, name: &str) -> (yes: bool)
    ensures
        yes == usable(os, name@),
{
    let chars = to_chars(name);
    let s = chars.as_slice();
    match os {
        Os::Linux => strip_prefix(s, "/dev/ttyUSB").is_some() || strip_prefix(
            s,
            "/dev/ttyACM",
        ).is_some(),
        Os::MacOs => contains_text(s, "usbserial") || contains_text(s, "usbmodem"),
        Os::Other => true,
    }
}

/// The usable ones of the ports that the system has, in its order.
pub fn list_ports(os: Os, names: &[String]) -> (out: Vec<String>)
    ensures
        string_views(out@) == string_views(names@).filter(|name: Seq<char>| usable(os, name)),
{
    let ghost all = string_views(names@);
    let ghost test = |name: Seq<char>| usable(os, name);
    let mut out: Vec<String> = Vec::new();
    proof {
        reveal(Seq::filter);
        assert(all.take(0) == Seq::<Seq<char>>::empty());
        assert(string_views(out@) == Seq::<Seq<char>>::empty());
    }
    for i in 0..names.len()
        invariant
            all == string_views(names@),
            test == (|name: Seq<char>| usable(os, name)),
            string_views(out@) == all.take(i as int).filter(test),
    {
        proof {
            reveal(Seq::filter);
            assert(all.take(i + 1).drop_last() == all.take(i as int));
        }
        if is_usable(os, names[i].as_str()) {
            let ghost before = string_views(out@);
            out.push(names[i].clone());
            assert(string_views(out@) == before.push(all[i as int]));
        }
    }
    assert(all.take(names.len() as int) == all);
    out
}

} // verus!
