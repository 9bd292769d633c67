//! What becomes of the controller's reports, from their text to the state of the machine.
use vstd::prelude::*;
use crate::arith::{minus, plus, single_text, Arithmetic, Scalar};
use crate::geometry::{bounded3, finite3};
use crate::grbl::engine::machine_after;
use crate::grbl::parser::{
    bracketed, code_in, report_of, reply_of, setting_in, status_in, vec3_in, with_field, Reply,
    ResponseType,
};
use crate::grbl::state::{MachineState, Status, Vec3};
use crate::lines::{lemma_decimal_read, lemma_float_text_token, one_token};
use crate::measure::{near, precise, worth};
use crate::text::{after_prefix, cut_at, decimal_of, float_text, position, split_of, tokens_of};

verus! {

/// Whether `c` does not occur in `s`.
pub open spec fn lacks(s: Seq<char>, c: char) -> bool {
    forall|k: int| 0 <= k < s.len() ==> #[trigger] s[k] != c
}

/// The parts with a `c` between each two of them.
pub open spec fn barred(parts: Seq<Seq<char>>, c: char) -> Seq<char>
    decreases parts.len(),
{
    if parts.len() == 0 {
        Seq::empty()
    } else if parts.len() == 1 {
        parts[0]
    } else {
        barred(parts.drop_last(), c).push(c) + parts.last()
    }
}

proof fn lemma_split_append(s: Seq<char>, l: Seq<char>, c: char)
    requires
        lacks(l, c),
    ensures
        split_of(s, c).len() >= 1,
        split_of(s + l, c) == split_of(s, c).drop_last().push(split_of(s, c).last() + l),
    decreases s.len() + l.len(),
{
    let pieces = split_of(s, c);
    if s.len() > 0 {
        lemma_split_append(s.drop_last(), Seq::empty(), c);
    }
    assert(pieces.len() >= 1);
    if l.len() == 0 {
        assert(s + l == s);
        assert(pieces.last() + l == pieces.last());
        assert(pieces.drop_last().push(pieces.last()) == pieces);
    } else {
        let front = l.drop_last();
        assert forall|k: int| 0 <= k < front.len() implies #[trigger] front[k] != c by {
            assert(front[k] == l[k]);
        }
        lemma_split_append(s, front, c);
        assert((s + l).drop_last() == s + front);
        assert((s + l).last() == l.last());
        assert(l[l.len() - 1] != c);
        let before = split_of(s + front, c);
        assert(before.drop_last() == pieces.drop_last());
        assert(before.last().push(l.last()) == pieces.last() + l);
    }
}

/// Splitting undoes setting parts side by side.
pub proof fn lemma_split_barred(parts: Seq<Seq<char>>, c: char)
    requires
        parts.len() > 0,
        forall|k: int| 0 <= k < parts.len() ==> lacks(#[trigger] parts[k], c),
    ensures
        split_of(barred(parts, c), c) == parts,
    decreases parts.len(),
{
    let last = parts.last();
    assert(lacks(parts[parts.len() - 1], c));
    if parts.len() == 1 {
        let none = Seq::<char>::empty();
        lemma_split_append(none, last, c);
        assert(none + last == last);
        assert(split_of(none, c).drop_last().push(none + last) == parts);
    } else {
        let front = parts.drop_last();
        assert forall|k: int| 0 <= k < front.len() implies lacks(#[trigger] front[k], c) by {
            assert(front[k] == parts[k]);
        }
        lemma_split_barred(front, c);
        let s = barred(front, c);
        let t = s.push(c);
        assert(t.drop_last() == s);
        assert(split_of(t, c) == front.push(Seq::empty()));
        lemma_split_append(t, last, c);
        assert(front.push(Seq::empty()).drop_last() == front);
        assert(Seq::<char>::empty() + last == last);
        assert(front.push(last) == parts);
    }
}

/// Cutting undoes setting a name before a value.
pub proof fn lemma_cut_joined(name: Seq<char>, value: Seq<char>, c: char)
    requires
        lacks(name, c),
    ensures
        cut_at(name.push(c) + value, c) == Some((name, value)),
{
    let s = name.push(c) + value;
    lemma_position(s, c, 0, name.len() as int);
    assert(s.take(name.len() as int) == name);
    assert(s.skip(name.len() as int + 1) == value);
}

proof fn lemma_position(s: Seq<char>, c: char, i: int, n: int)
    requires
        0 <= i <= n < s.len(),
        s[n] == c,
        forall|k: int| i <= k < n ==> s[k] != c,
    ensures
        position(s, c, i) == n,
    decreases n - i,
{
    if i < n {
        lemma_position(s, c, i + 1, n);
    }
}

/// A text without a colon is no field.
proof fn lemma_no_position(s: Seq<char>, c: char, i: int)
    requires
        0 <= i <= s.len(),
        lacks(s, c),
    ensures
        position(s, c, i) == s.len(),
    decreases s.len() - i,
{
    if i < s.len() {
        lemma_no_position(s, c, i + 1);
    }
}

/// A field of a report: its name and its value.
pub struct Field {
    pub name: Seq<char>,
    pub value: Seq<char>,
}

impl Field {
    pub open spec fn text(self) -> Seq<char> {
        self.name.push(':') + self.value
    }

    /// Neither the name nor the value holds what separates them from others.
    pub open spec fn plain(self) -> bool {
        lacks(self.name, ':') && lacks(self.name, '|') && lacks(self.value, '|')
    }
}

pub open spec fn all_plain(fields: Seq<Field>) -> bool {
    forall|k: int| 0 <= k < fields.len() ==> (#[trigger] fields[k]).plain()
}

/// The parts of a report: the word for the status, and the fields.
pub open spec fn parts_of(word: Seq<char>, fields: Seq<Field>) -> Seq<Seq<char>> {
    seq![word] + fields.map_values(|f: Field| f.text())
}

/// A report as the controller sends it.
pub open spec fn report_text(word: Seq<char>, fields: Seq<Field>) -> Seq<char> {
    seq!['<'] + barred(parts_of(word, fields), '|') + seq!['>']
}

/// What the last field with this name says.
pub open spec fn said(fields: Seq<Field>, name: Seq<char>) -> Option<Seq<char>>
    decreases fields.len(),
{
    if fields.len() == 0 {
        None
    } else if fields.last().name == name {
        Some(fields.last().value)
    } else {
        said(fields.drop_last(), name)
    }
}

/// Three texts with commas between them.
pub open spec fn triple(x: Seq<char>, y: Seq<char>, z: Seq<char>) -> Seq<char> {
    x.push(',') + y.push(',') + z
}

/// The text of a number; none of them has a comma.
pub open spec fn number_text(s: Seq<char>) -> bool {
    float_text(s) && lacks(s, ',')
}

/// Three numbers with commas between them are read in their order.
pub proof fn lemma_triple_read<A: Arithmetic>(a: &A, x: Seq<char>, y: Seq<char>, z: Seq<char>)
    requires
        number_text(x) && number_text(y) && number_text(z),
    ensures
        vec3_in(a, triple(x, y, z)) == (Vec3 {
            x: single_text(a, x),
            y: single_text(a, y),
            z: single_text(a, z),
        }),
{
    let parts = seq![x, y, z];
    lemma_split_barred(parts, ',');
    assert(parts.drop_last() == seq![x, y]);
    assert(seq![x, y].drop_last() == seq![x]);
    reveal_with_fuel(barred, 4);
    assert(barred(parts, ',') == triple(x, y, z));
}

/// How a report is read: the word gives the status, and each field says what it is named for. Of
/// several with one name the last counts, and what no field says stays unsaid.
pub proof fn lemma_report_read<A: Arithmetic>(a: &A, word: Seq<char>, fields: Seq<Field>)
    requires
        word.len() > 0,
        lacks(word, '|'),
        all_plain(fields),
    ensures
        ({
            let r = reply_of(a, report_text(word, fields));
            &&& r.resp_type == ResponseType::Status
            &&& r.status == status_in(word)
            &&& match said(fields, "MPos"@) {
                Some(v) => r.has_mpos && r.mpos == vec3_in(a, v),
                None => !r.has_mpos,
            }
            &&& match said(fields, "WPos"@) {
                Some(v) => r.has_wpos && r.wpos == vec3_in(a, v),
                None => !r.has_wpos,
            }
            &&& match said(fields, "WCO"@) {
                Some(v) => r.has_wco && r.wco == vec3_in(a, v),
                None => !r.has_wco,
            }
            &&& match said(fields, "Pn"@) {
                Some(v) => r.has_pins && r.pins == v,
                None => !r.has_pins,
            }
            &&& said(fields, "FS"@) is None ==> r.feed == (Scalar { bits: 0 }) && r.spindle == (
            Scalar { bits: 0 })
            &&& said(fields, "Ov"@) is None ==> r.feed_ovr == 0 && r.spindle_ovr == 0
            &&& forall|f: Seq<char>, s: Seq<char>|
                said(fields, "FS"@) == Some(#[trigger] (f.push(',') + s)) && lacks(f, ',')
                    && float_text(f) && float_text(s) ==> r.feed == single_text(a, f) && r.spindle
                    == single_text(a, s)
            &&& forall|f: nat, m: nat, s: nat|
                #![trigger decimal_of(f), decimal_of(m), decimal_of(s)]
                said(fields, "Ov"@) == Some(
                    triple(decimal_of(f), decimal_of(m), decimal_of(s)),
                ) && f <= i32::MAX && m <= i32::MAX && s <= i32::MAX ==> r.feed_ovr == f
                    && r.rapid_ovr == m && r.spindle_ovr == s
        }),
{
    reveal_strlit("ok");
    reveal_strlit("error:");
    reveal_strlit("ALARM:");
    let parts = parts_of(word, fields);
    let s = report_text(word, fields);
    assert forall|k: int| 0 <= k < parts.len() implies lacks(#[trigger] parts[k], '|') by {
        if k > 0 {
            let f = fields[k - 1];
            assert(f.plain());
            assert(parts[k] == f.text());
            assert forall|i: int| 0 <= i < f.text().len() implies #[trigger] f.text()[i]
                != '|' by {
                if i < f.name.len() {
                    assert(f.text()[i] == f.name[i]);
                } else if i > f.name.len() {
                    assert(f.text()[i] == f.value[i - f.name.len() - 1]);
                }
            }
        }
    }
    lemma_split_barred(parts, '|');
    lemma_barred_grows(parts, '|');
    assert(parts[0] == word);
    assert(s.subrange(1, s.len() - 1) == barred(parts, '|'));
    assert(s.len() > 2 && s[0] == '<' && s.last() == '>');
    assert(s != "ok"@);
    assert("error:"@[0] == 'e' && "ALARM:"@[0] == 'A');
    lemma_other_start(s, "error:"@);
    lemma_other_start(s, "ALARM:"@);
    assert(reply_of(a, s) == report_of(a, parts));
    lemma_fields_read(a, word, fields);
}

proof fn lemma_barred_grows(parts: Seq<Seq<char>>, c: char)
    requires
        parts.len() > 0,
    ensures
        barred(parts, c).len() >= parts[0].len(),
    decreases parts.len(),
{
    if parts.len() > 1 {
        lemma_barred_grows(parts.drop_last(), c);
    }
}

proof fn lemma_fields_read<A: Arithmetic>(a: &A, word: Seq<char>, fields: Seq<Field>)
    requires
        all_plain(fields),
    ensures
        ({
            let r = report_of(a, parts_of(word, fields));
            &&& r.resp_type == ResponseType::Status
            &&& r.status == status_in(word)
            &&& match said(fields, "MPos"@) {
                Some(v) => r.has_mpos && r.mpos == vec3_in(a, v),
                None => !r.has_mpos,
            }
            &&& match said(fields, "WPos"@) {
                Some(v) => r.has_wpos && r.wpos == vec3_in(a, v),
                None => !r.has_wpos,
            }
            &&& match said(fields, "WCO"@) {
                Some(v) => r.has_wco && r.wco == vec3_in(a, v),
                None => !r.has_wco,
            }
            &&& match said(fields, "Pn"@) {
                Some(v) => r.has_pins && r.pins == v,
                None => !r.has_pins,
            }
            &&& said(fields, "FS"@) is None ==> r.feed == (Scalar { bits: 0 }) && r.spindle == (
            Scalar { bits: 0 })
            &&& said(fields, "Ov"@) is None ==> r.feed_ovr == 0 && r.spindle_ovr == 0
            &&& forall|f: Seq<char>, s: Seq<char>|
                said(fields, "FS"@) == Some(#[trigger] (f.push(',') + s)) && lacks(f, ',')
                    && float_text(f) && float_text(s) ==> r.feed == single_text(a, f) && r.spindle
                    == single_text(a, s)
            &&& forall|f: nat, m: nat, s: nat|
                #![trigger decimal_of(f), decimal_of(m), decimal_of(s)]
                said(fields, "Ov"@) == Some(
                    triple(decimal_of(f), decimal_of(m), decimal_of(s)),
                ) && f <= i32::MAX && m <= i32::MAX && s <= i32::MAX ==> r.feed_ovr == f
                    && r.rapid_ovr == m && r.spindle_ovr == s
        }),
    decreases fields.len(),
{
    reveal_strlit("MPos");
    reveal_strlit("WPos");
    reveal_strlit("WCO");
    reveal_strlit("FS");
    reveal_strlit("Ov");
    reveal_strlit("Pn");
    let parts = parts_of(word, fields);
    if fields.len() == 0 {
        assert(parts == seq![word]);
    } else {
        let front = fields.drop_last();
        let last = fields.last();
        assert(fields[fields.len() - 1].plain());
        assert forall|k: int| 0 <= k < front.len() implies (#[trigger] front[k]).plain() by {
            assert(front[k] == fields[k]);
        }
        lemma_fields_read(a, word, front);
        assert(parts.drop_last() == parts_of(word, front));
        assert(parts.last() == last.text());
        lemma_cut_joined(last.name, last.value, ':');
        let before = report_of(a, parts_of(word, front));
        let r = report_of(a, parts);
        assert(r == with_field(a, before, last.text()));
        assert("MPos"@[0] == 'M' && "WPos"@[1] == 'P' && "WCO"@[1] == 'C' && "WCO"@.len() == 3);
        assert("FS"@[0] == 'F' && "Ov"@[0] == 'O' && "Pn"@[0] == 'P' && "WPos"@[0] == 'W');
        assert("WPos"@.len() == 4);
        assert forall|f: Seq<char>, s: Seq<char>|
            said(fields, "FS"@) == Some(#[trigger] (f.push(',') + s)) && lacks(f, ',')
                && float_text(f) && float_text(s) implies r.feed == single_text(a, f) && r.spindle
            == single_text(a, s) by {
            if last.name == "FS"@ {
                lemma_cut_joined(f, s, ',');
            }
        }
        assert forall|f: nat, m: nat, s: nat|
            #![trigger decimal_of(f), decimal_of(m), decimal_of(s)]
            said(fields, "Ov"@) == Some(triple(decimal_of(f), decimal_of(m), decimal_of(s))) && f
                <= i32::MAX && m <= i32::MAX && s <= i32::MAX implies r.feed_ovr == f
            && r.rapid_ovr == m && r.spindle_ovr == s by {
            if last.name == "Ov"@ {
                let (tf, tm, ts) = (decimal_of(f), decimal_of(m), decimal_of(s));
                lemma_decimal_read(f);
                lemma_decimal_read(m);
                lemma_decimal_read(s);
                let rest = tm.push(',') + ts;
                assert(triple(tf, tm, ts) == tf.push(',') + rest);
                lemma_cut_joined(tf, rest, ',');
                lemma_cut_joined(tm, ts, ',');
            }
        }
    }
}

/// The machine after a report.
pub open spec fn reported<A: Arithmetic>(
    a: &A,
    m: MachineState,
    word: Seq<char>,
    fields: Seq<Field>,
) -> MachineState {
    machine_after(a, m, reply_of(a, report_text(word, fields)))
}

/// A report changes what its fields say, and nothing else. Without a work offset the last one
/// stays, whatever other fields there are. A position is taken over, and the other one follows by
/// the offset; without either both stay.
pub proof fn lemma_report_taken_over<A: Arithmetic>(
    a: &A,
    m: MachineState,
    word: Seq<char>,
    fields: Seq<Field>,
)
    requires
        word.len() > 0,
        lacks(word, '|'),
        all_plain(fields),
    ensures
        ({
            let n = reported(a, m, word, fields);
            let wco = match said(fields, "WCO"@) {
                Some(v) => vec3_in(a, v),
                None => m.wco,
            };
            &&& n.wco == wco
            &&& n.status == status_in(word)
            &&& match (said(fields, "WPos"@), said(fields, "MPos"@)) {
                (Some(v), _) => {
                    &&& n.wpos == vec3_in(a, v)
                    &&& n.mpos.x == plus(a, n.wpos.x, wco.x)
                    &&& n.mpos.y == plus(a, n.wpos.y, wco.y)
                    &&& n.mpos.z == plus(a, n.wpos.z, wco.z)
                },
                (None, Some(v)) => {
                    &&& n.mpos == vec3_in(a, v)
                    &&& n.wpos.x == minus(a, n.mpos.x, wco.x)
                    &&& n.wpos.y == minus(a, n.mpos.y, wco.y)
                    &&& n.wpos.z == minus(a, n.mpos.z, wco.z)
                },
                (None, None) => n.mpos == m.mpos && n.wpos == m.wpos,
            }
            &&& n.probe_active == match said(fields, "Pn"@) {
                Some(v) => v.contains('P'),
                None => false,
            }
            &&& said(fields, "FS"@) is None ==> n.feed == (Scalar { bits: 0 }) && n.spindle == (
            Scalar { bits: 0 })
            &&& said(fields, "Ov"@) is None ==> n.feed_ovr == m.feed_ovr && n.spindle_ovr
                == m.spindle_ovr
            &&& forall|f: Seq<char>, s: Seq<char>|
                said(fields, "FS"@) == Some(#[trigger] (f.push(',') + s)) && lacks(f, ',')
                    && float_text(f) && float_text(s) ==> n.feed == single_text(a, f) && n.spindle
                    == single_text(a, s)
            &&& forall|f: nat, r: nat, s: nat|
                #![trigger decimal_of(f), decimal_of(r), decimal_of(s)]
                said(fields, "Ov"@) == Some(
                    triple(decimal_of(f), decimal_of(r), decimal_of(s)),
                ) && 0 < f <= i32::MAX && r <= i32::MAX && 0 < s <= i32::MAX ==> n.feed_ovr == f
                    && n.spindle_ovr == s
            &&& n.port == m.port && n.baud == m.baud && n.connected == m.connected
            &&& n.alarm_code == m.alarm_code && n.last_error == m.last_error
            &&& n.soft_limits == m.soft_limits && n.max_travel == m.max_travel
        }),
{
    lemma_report_read(a, word, fields);
}

/// The machine after several reports.
pub open spec fn all_reported<A: Arithmetic>(
    a: &A,
    m: MachineState,
    reports: Seq<(Seq<char>, Seq<Field>)>,
) -> MachineState
    decreases reports.len(),
{
    if reports.len() == 0 {
        m
    } else {
        let (word, fields) = reports.last();
        reported(a, all_reported(a, m, reports.drop_last()), word, fields)
    }
}

/// The work offset is the one that was reported last, however many reports without one have come
/// since, and the work position is as far from the machine position as that offset.
pub proof fn lemma_offset_lasts<A: Arithmetic>(
    a: &A,
    m: MachineState,
    reports: Seq<(Seq<char>, Seq<Field>)>,
    word: Seq<char>,
    fields: Seq<Field>,
    bound: real,
    eps: real,
)
    requires
        forall|k: int|
            0 <= k < reports.len() ==> {
                let r = #[trigger] reports[k];
                r.0.len() > 0 && lacks(r.0, '|') && all_plain(r.1) && said(r.1, "WCO"@) is None
            },
        word.len() > 0 && lacks(word, '|') && all_plain(fields),
        said(fields, "WCO"@) is None,
        said(fields, "WPos"@) is None,
        said(fields, "MPos"@) is Some,
    ensures
        ({
            let n = reported(a, all_reported(a, m, reports), word, fields);
            &&& n.wco == m.wco
            &&& n.mpos == vec3_in(a, said(fields, "MPos"@)->0)
            &&& precise(a, bound, eps) && finite3(m.wco) && finite3(n.mpos) && bounded3(
                m.wco,
                bound / 2 as real,
            ) && bounded3(n.mpos, bound / 2 as real) ==> {
                &&& near(worth(n.wpos.x), worth(n.mpos.x) - worth(m.wco.x), eps)
                &&& near(worth(n.wpos.y), worth(n.mpos.y) - worth(m.wco.y), eps)
                &&& near(worth(n.wpos.z), worth(n.mpos.z) - worth(m.wco.z), eps)
            }
        }),
{
    lemma_offset_kept(a, m, reports);
    lemma_report_taken_over(a, all_reported(a, m, reports), word, fields);
}

proof fn lemma_offset_kept<A: Arithmetic>(
    a: &A,
    m: MachineState,
    reports: Seq<(Seq<char>, Seq<Field>)>,
)
    requires
        forall|k: int|
            0 <= k < reports.len() ==> {
                let r = #[trigger] reports[k];
                r.0.len() > 0 && lacks(r.0, '|') && all_plain(r.1) && said(r.1, "WCO"@) is None
            },
    ensures
        all_reported(a, m, reports).wco == m.wco,
    decreases reports.len(),
{
    if reports.len() > 0 {
        let front = reports.drop_last();
        assert forall|k: int| 0 <= k < front.len() implies {
            let r = #[trigger] front[k];
            r.0.len() > 0 && lacks(r.0, '|') && all_plain(r.1) && said(r.1, "WCO"@) is None
        } by {
            assert(front[k] == reports[k]);
        }
        lemma_offset_kept(a, m, front);
        let last = reports[reports.len() - 1];
        lemma_report_taken_over(a, all_reported(a, m, front), last.0, last.1);
    }
}

/// Nothing but a report changes the positions, the offset, the feed, the speed, the overrides and
/// the probe pin, and nothing but a setting changes the limits of the travel.
pub proof fn lemma_other_replies<A: Arithmetic>(a: &A, m: MachineState, r: Reply)
    ensures
        ({
            let n = machine_after(a, m, r);
            &&& r.resp_type != ResponseType::Status ==> n.mpos == m.mpos && n.wpos == m.wpos
                && n.wco == m.wco && n.feed == m.feed && n.spindle == m.spindle && n.feed_ovr
                == m.feed_ovr && n.spindle_ovr == m.spindle_ovr && n.probe_active
                == m.probe_active
            &&& r.resp_type != ResponseType::Setting ==> n.soft_limits == m.soft_limits
                && n.max_travel == m.max_travel
            &&& r.resp_type == ResponseType::Alarm ==> n.status == Status::Alarm && n.alarm_code
                == r.alarm_code
            &&& r.resp_type == ResponseType::Welcome ==> n.status == Status::Idle && n.alarm_code
                == 0
            &&& r.resp_type != ResponseType::Status && r.resp_type != ResponseType::Alarm
                && r.resp_type != ResponseType::Welcome ==> n.status == m.status
            &&& r.resp_type != ResponseType::Alarm && r.resp_type != ResponseType::Welcome
                ==> n.alarm_code == m.alarm_code
            &&& n.port == m.port && n.baud == m.baud && n.connected == m.connected
                && n.last_error == m.last_error
        }),
{
}

/// A setting as the controller sends it.
pub open spec fn setting_text(num: nat, value: Seq<char>) -> Seq<char> {
    seq!['$'] + decimal_of(num).push('=') + value
}

/// The machine keeps four settings: whether it limits its travel, and how far it travels along each
/// axis. Each changes that alone, and no other setting changes anything.
pub proof fn lemma_settings_taken_over<A: Arithmetic>(
    a: &A,
    m: MachineState,
    num: nat,
    value: Seq<char>,
)
    requires
        num <= i32::MAX,
        float_text(value),
    ensures
        ({
            let n = machine_after(a, m, reply_of(a, setting_text(num, value)));
            let v = single_text(a, value);
            &&& n == (MachineState {
                soft_limits: n.soft_limits,
                max_travel: n.max_travel,
                ..m
            })
            &&& n.soft_limits == if num == 20 {
                !v.equals(Scalar { bits: 0 })
            } else {
                m.soft_limits
            }
            &&& n.max_travel.x == if num == 130 {
                v
            } else {
                m.max_travel.x
            }
            &&& n.max_travel.y == if num == 131 {
                v
            } else {
                m.max_travel.y
            }
            &&& n.max_travel.z == if num == 132 {
                v
            } else {
                m.max_travel.z
            }
        }),
{
    reveal_strlit("ok");
    reveal_strlit("error:");
    reveal_strlit("ALARM:");
    reveal_strlit("[MSG:");
    reveal_strlit("[PRB:");
    reveal_strlit("Grbl ");
    let s = setting_text(num, value);
    let digits = decimal_of(num);
    assert(s[0] == '$');
    assert("error:"@[0] == 'e' && "ALARM:"@[0] == 'A' && "[MSG:"@[0] == '[' && "[PRB:"@[0] == '['
        && "Grbl "@[0] == 'G' && "ok"@[0] == 'o');
    lemma_other_start(s, "error:"@);
    lemma_other_start(s, "ALARM:"@);
    lemma_other_start(s, "[MSG:"@);
    lemma_other_start(s, "[PRB:"@);
    lemma_other_start(s, "Grbl "@);
    lemma_decimal_read(num);
    assert forall|k: int| 0 <= k < digits.len() implies #[trigger] digits[k] != '=' by {
        assert(crate::text::digit(digits[k]));
    }
    lemma_cut_joined(digits, value, '=');
    assert(s.skip(1) == digits.push('=') + value);
    lemma_float_text_token(value);
    lemma_one_token(value);
    assert(setting_in(a, s) == Some((num as i32, single_text(a, value))));
}

proof fn lemma_other_start(s: Seq<char>, t: Seq<char>)
    requires
        s.len() > 0,
        t.len() > 0,
        s[0] != t[0],
    ensures
        after_prefix(s, t) is None,
{
    if t.len() <= s.len() {
        assert(s.take(t.len() as int)[0] == s[0]);
    }
}

proof fn lemma_one_token(t: Seq<char>)
    requires
        one_token(t),
    ensures
        tokens_of(t) == seq![t],
    decreases t.len(),
{
    let front = t.drop_last();
    if t.len() == 1 {
        assert(front == Seq::<char>::empty());
        assert(seq![t.last()] == t);
        assert(tokens_of(t) == tokens_of(front).push(t));
        assert(Seq::<Seq<char>>::empty().push(t) == seq![t]);
    } else {
        assert forall|k: int| 0 <= k < front.len() implies !crate::text::space(
            #[trigger] front[k],
        ) by {
            assert(front[k] == t[k]);
        }
        lemma_one_token(front);
        assert(front.push(t.last()) == t);
        assert(!crate::text::space(t[t.len() - 2]) && !crate::text::space(t[t.len() - 1]));
        assert(seq![front].drop_last() == Seq::<Seq<char>>::empty());
        assert(seq![front].last() == front);
        assert(tokens_of(t) == Seq::<Seq<char>>::empty().push(t));
        assert(Seq::<Seq<char>>::empty().push(t) == seq![t]);
    }
}

/// What a probing reports: where the probe was, and whether it met anything.
pub open spec fn probe_text(place: Seq<char>, contact: bool) -> Seq<char> {
    "[PRB:"@ + place + (if contact {
        seq![':', '1', ']']
    } else {
        seq![':', '0', ']']
    })
}

/// The report of a probing is read as it is written.
pub proof fn lemma_probe_report_read<A: Arithmetic>(
    a: &A,
    x: Seq<char>,
    y: Seq<char>,
    z: Seq<char>,
    contact: bool,
)
    requires
        number_text(x) && number_text(y) && number_text(z),
        lacks(x, ':') && lacks(y, ':') && lacks(z, ':'),
    ensures
        ({
            let r = reply_of(a, probe_text(triple(x, y, z), contact));
            &&& r.resp_type == ResponseType::Probe
            &&& r.probe_ok == contact
            &&& r.prb == (Vec3 {
                x: single_text(a, x),
                y: single_text(a, y),
                z: single_text(a, z),
            })
        }),
{
    reveal_strlit("ok");
    reveal_strlit("error:");
    reveal_strlit("ALARM:");
    reveal_strlit("[MSG:");
    reveal_strlit("[PRB:");
    reveal_strlit("1");
    let place = triple(x, y, z);
    let s = probe_text(place, contact);
    let last = if contact {
        seq!['1']
    } else {
        seq!['0']
    };
    assert(s[0] == '[' && s[1] == 'P');
    assert(s.last() == ']');
    lemma_other_start(s, "error:"@);
    lemma_other_start(s, "ALARM:"@);
    assert("[MSG:"@[1] == 'M' && s.take(5)[1] == s[1]);
    assert(after_prefix(s, "[MSG:"@) is None);
    assert(s.take(5) == "[PRB:"@);
    let inner = place.push(':') + last;
    assert(bracketed(s, "[PRB:"@) == Some(inner)) by {
        assert(s.skip(5).drop_last() == inner);
        assert(s.skip(5).last() == ']');
    }
    assert(lacks(place, ':')) by {
        assert forall|k: int| 0 <= k < place.len() implies #[trigger] place[k] != ':' by {
            let n = x.len() as int;
            let m = n + 1 + y.len();
            if k < n {
                assert(place[k] == x[k]);
            } else if n < k < m {
                assert(place[k] == y[k - n - 1]);
            } else if m < k {
                assert(place[k] == z[k - m - 1]);
            }
        }
    }
    lemma_cut_joined(place, last, ':');
    lemma_triple_read(a, x, y, z);
    assert("1"@ == seq!['1']);
    assert(last[0] == if contact {
        '1'
    } else {
        '0'
    });
}

/// A line that the controller took is confirmed, and one that it refused is answered by an error with
/// its code. An alarm comes with its code too.
pub proof fn lemma_answers_read<A: Arithmetic>(a: &A, code: Seq<char>)
    ensures
        reply_of(a, "ok"@).resp_type == ResponseType::Ack,
        ({
            let r = reply_of(a, "error:"@ + code);
            r.resp_type == ResponseType::Error && r.error_code == code_in(code)
        }),
        ({
            let r = reply_of(a, "ALARM:"@ + code);
            r.resp_type == ResponseType::Alarm && r.alarm_code == code_in(code)
        }),
{
    reveal_strlit("ok");
    reveal_strlit("error:");
    reveal_strlit("ALARM:");
    let (e, l) = ("error:"@ + code, "ALARM:"@ + code);
    assert(e[0] == 'e' && l[0] == 'A');
    assert("ok"@[0] == 'o');
    assert(e.take(6) == "error:"@ && e.skip(6) == code);
    assert(l.take(6) == "ALARM:"@ && l.skip(6) == code);
    lemma_other_start(l, "error:"@);
}

} // verus!
