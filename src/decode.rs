//! Reading the JSON text of a registry back: a decoder for the shape that
//! the encoder writes, and the proof that it recovers every registry.
use vstd::prelude::*;
use crate::json::{
    decimal, digit, escaped, escaped_char, group_json, groups_json, hex_digit, quoted, registry_text, task_json,
    tasks_json, quotable,
};
use crate::registry::{GroupView, TaskView};

verus! {

/// The value of the lower-case hexadecimal digit `c`.
pub open spec fn hex_value(c: char) -> int {
    if '0' <= c && c <= '9' {
        (c as u32) as int - ('0' as u32) as int
    } else {
        (c as u32) as int - ('a' as u32) as int + 10
    }
}

/// How many characters the escape or plain character at the front of `s`
/// takes.
pub open spec fn unit_len(s: Seq<char>) -> int {
    if s[0] == '\\' {
        if s.len() > 1 && s[1] == 'u' {
            6
        } else {
            2
        }
    } else {
        1
    }
}

/// The character that the escape or plain character at the front of `s`
/// stands for.
pub open spec fn unit_char(s: Seq<char>) -> Option<char> {
    if s[0] != '\\' {
        Some(s[0])
    } else if s.len() < 2 {
        None
    } else {
        let e = s[1];
        if e == '"' {
            Some('"')
        } else if e == '\\' {
            Some('\\')
        } else if e == 'b' {
            Some('\x08')
        } else if e == 't' {
            Some('\t')
        } else if e == 'n' {
            Some('\n')
        } else if e == 'f' {
            Some('\x0c')
        } else if e == 'r' {
            Some('\r')
        } else if e == 'u' && s.len() >= 6 && s[2] == '0' && s[3] == '0' {
            Some(((hex_value(s[4]) * 16 + hex_value(s[5])) as u32) as char)
        } else {
            None
        }
    }
}

/// The text of a JSON string body at the front of `s`, up to its closing
/// quote, and what follows that quote.
pub open spec fn unescape(s: Seq<char>) -> Option<(Seq<char>, Seq<char>)>
    decreases s.len(),
{
    if s.len() == 0 {
        None
    } else if s[0] == '"' {
        Some((Seq::empty(), s.drop_first()))
    } else if unit_len(s) <= s.len() {
        match unit_char(s) {
            Some(c) => match unescape(s.subrange(unit_len(s), s.len() as int)) {
                Some((t, r)) => Some((seq![c] + t, r)),
                None => None,
            },
            None => None,
        }
    } else {
        None
    }
}

/// The text of the JSON string literal at the front of `s`, and what
/// follows it.
#[verifier::opaque]
pub open spec fn parse_string(s: Seq<char>) -> Option<(Seq<char>, Seq<char>)> {
    if s.len() > 0 && s[0] == '"' {
        unescape(s.drop_first())
    } else {
        None
    }
}

proof fn lemma_escaped_append(a: Seq<char>, b: Seq<char>)
    ensures
        escaped(a + b) == escaped(a) + escaped(b),
    decreases b.len(),
{
    if b.len() == 0 {
        assert(a + b =~= a);
        assert(escaped(b) =~= Seq::<char>::empty());
        assert(escaped(a) + escaped(b) =~= escaped(a));
    } else {
        lemma_escaped_append(a, b.drop_last());
        assert((a + b).drop_last() =~= a + b.drop_last());
        assert((a + b).last() == b.last());
        assert(escaped(a + b) =~= escaped(a) + escaped(b));
    }
}

proof fn lemma_unescape_char(c: char, t: Seq<char>)
    ensures
        unescape(escaped_char(c) + t) == match unescape(t) {
            Some((x, r)) => Some((seq![c] + x, r)),
            None => None::<(Seq<char>, Seq<char>)>,
        },
{
    let s = escaped_char(c) + t;
    let e = escaped_char(c);
    assert(s.subrange(e.len() as int, s.len() as int) =~= t);
    if (c as u32) < 0x20 && c != '\x08' && c != '\t' && c != '\n' && c != '\x0c' && c != '\r' {
        let v = c as u32;
        assert(hex_value(hex_digit(v / 16)) == v / 16) by {
            assert(v / 16 < 2);
        }
        assert(hex_value(hex_digit(v % 16)) == v % 16) by {
            let d = v % 16;
            let digits = seq!['0', '1', '2', '3', '4', '5', '6', '7', '8', '9', 'a', 'b', 'c', 'd', 'e', 'f'];
            assert(hex_digit(d) == digits[d as int]);
        }
        assert(unit_len(s) == 6);
        assert(unit_char(s) == Some(c));
    }
}

/// The JSON string literal of a text reads back as that text, followed by
/// whatever came after it.
pub proof fn lemma_string_round_trip(x: Seq<char>, r: Seq<char>)
    ensures
        parse_string(quoted(x) + r) == Some((x, r)),
    decreases x.len(),
{
    reveal(parse_string);
    lemma_unescape_body(x, r);
    assert((quoted(x) + r).drop_first() =~= escaped(x) + (seq!['"'] + r));
}

proof fn lemma_unescape_body(x: Seq<char>, r: Seq<char>)
    ensures
        unescape(escaped(x) + (seq!['"'] + r)) == Some((x, r)),
    decreases x.len(),
{
    if x.len() == 0 {
        assert(escaped(x) + (seq!['"'] + r) =~= seq!['"'] + r);
        assert((seq!['"'] + r).drop_first() =~= r);
    } else {
        let rest = x.drop_first();
        assert(x =~= seq![x[0]] + rest);
        lemma_escaped_append(seq![x[0]], rest);
        assert(seq![x[0]].drop_last() =~= Seq::<char>::empty());
        assert(seq![x[0]].last() == x[0]);
        assert(escaped(Seq::<char>::empty()) =~= Seq::<char>::empty());
        assert(escaped(seq![x[0]]) =~= escaped_char(x[0]));
        lemma_unescape_body(rest, r);
        lemma_unescape_char(x[0], escaped(rest) + (seq!['"'] + r));
        assert(escaped(x) + (seq!['"'] + r) =~= escaped_char(x[0]) + (escaped(rest) + (seq!['"'] + r)));
        assert(seq![x[0]] + rest =~= x);
    }
}

/// Whether `c` is a decimal digit.
pub open spec fn is_digit(c: char) -> bool {
    '0' <= c && c <= '9'
}

/// The number of decimal digits at the front of `s`.
pub open spec fn digit_run(s: Seq<char>) -> nat
    decreases s.len(),
{
    if s.len() > 0 && is_digit(s[0]) {
        1 + digit_run(s.drop_first())
    } else {
        0
    }
}

/// The value of the decimal digits `d`.
pub open spec fn digits_value(d: Seq<char>) -> nat
    decreases d.len(),
{
    if d.len() == 0 {
        0
    } else {
        digits_value(d.drop_last()) * 10 + ((d.last() as u32) - ('0' as u32)) as nat
    }
}

/// The number written in decimal at the front of `s`, and what follows it.
#[verifier::opaque]
pub open spec fn parse_number(s: Seq<char>) -> Option<(nat, Seq<char>)> {
    let l = digit_run(s);
    if l == 0 {
        None
    } else {
        Some((digits_value(s.subrange(0, l as int)), s.subrange(l as int, s.len() as int)))
    }
}

proof fn lemma_digit(d: nat)
    requires
        d < 10,
    ensures
        is_digit(digit(d)),
        (digit(d) as u32) - ('0' as u32) == d,
{
    let digits = seq!['0', '1', '2', '3', '4', '5', '6', '7', '8', '9'];
    assert(digit(d) == digits[d as int]);
    assert(d == 0 || d == 1 || d == 2 || d == 3 || d == 4 || d == 5 || d == 6 || d == 7 || d == 8 || d == 9);
}

proof fn lemma_decimal(n: nat)
    ensures
        decimal(n).len() > 0,
        forall|k: int| 0 <= k < decimal(n).len() ==> is_digit(#[trigger] decimal(n)[k]),
        digits_value(decimal(n)) == n,
    decreases n,
{
    if n < 10 {
        lemma_digit(n);
        assert(decimal(n).drop_last() =~= Seq::<char>::empty());
        assert(decimal(n).last() == digit(n));
        assert(digits_value(Seq::<char>::empty()) == 0);
    } else {
        lemma_decimal(n / 10);
        lemma_digit(n % 10);
        assert(decimal(n).drop_last() =~= decimal(n / 10));
        assert(decimal(n).last() == digit(n % 10));
        assert(digits_value(decimal(n)) == digits_value(decimal(n / 10)) * 10 + n % 10);
        assert((n / 10) * 10 + n % 10 == n);
    }
}

proof fn lemma_digit_run(a: Seq<char>, b: Seq<char>)
    requires
        forall|k: int| 0 <= k < a.len() ==> is_digit(#[trigger] a[k]),
        b.len() == 0 || !is_digit(b[0]),
    ensures
        digit_run(a + b) == a.len(),
    decreases a.len(),
{
    if a.len() == 0 {
        assert(a + b =~= b);
    } else {
        assert((a + b).drop_first() =~= a.drop_first() + b);
        assert((a + b)[0] == a[0]);
        lemma_digit_run(a.drop_first(), b);
    }
}

/// The decimal numeral of a number reads back as that number, where what
/// follows it does not begin with a digit.
pub proof fn lemma_number_round_trip(n: nat, r: Seq<char>)
    requires
        r.len() == 0 || !is_digit(r[0]),
    ensures
        parse_number(decimal(n) + r) == Some((n, r)),
{
    reveal(parse_number);
    lemma_decimal(n);
    lemma_digit_run(decimal(n), r);
    let s = decimal(n) + r;
    assert(s.subrange(0, decimal(n).len() as int) =~= decimal(n));
    assert(s.subrange(decimal(n).len() as int, s.len() as int) =~= r);
}

/// What follows the literal `lit` at the front of `s`.
pub open spec fn after(s: Seq<char>, lit: Seq<char>) -> Option<Seq<char>> {
    if lit.len() <= s.len() && s.subrange(0, lit.len() as int) == lit {
        Some(s.subrange(lit.len() as int, s.len() as int))
    } else {
        None
    }
}

proof fn lemma_after(lit: Seq<char>, r: Seq<char>)
    ensures
        after(lit + r, lit) == Some(r),
{
    assert((lit + r).subrange(0, lit.len() as int) =~= lit);
    assert((lit + r).subrange(lit.len() as int, (lit + r).len() as int) =~= r);
}

/// The task object at the front of `s`, and what follows it.
#[verifier::opaque]
pub open spec fn parse_task(s: Seq<char>) -> Option<(TaskView, Seq<char>)> {
    match after(s, "{\"title\":"@) {
        Some(s1) => match parse_string(s1) {
            Some((title, s2)) => match after(s2, ",\"id\":"@) {
                Some(s3) => match parse_number(s3) {
                    Some((n, s4)) => if n <= u64::MAX {
                        match after(s4, "}"@) {
                            Some(s5) => Some((TaskView { title, id: n as u64 }, s5)),
                            None => None,
                        }
                    } else {
                        None
                    },
                    None => None,
                },
                None => None,
            },
            None => None,
        },
        None => None,
    }
}

/// The task objects that follow, each after a comma, up to the closing
/// bracket at the front of `s`, and what follows that bracket.
#[verifier::opaque]
pub open spec fn parse_more_tasks(s: Seq<char>) -> Option<(Seq<TaskView>, Seq<char>)>
    decreases s.len(),
{
    if s.len() > 0 && s[0] == ']' {
        Some((Seq::empty(), s.drop_first()))
    } else if s.len() > 0 && s[0] == ',' {
        match parse_task(s.drop_first()) {
            Some((t, s2)) => if s2.len() < s.len() {
                match parse_more_tasks(s2) {
                    Some((ts, r)) => Some((seq![t] + ts, r)),
                    None => None,
                }
            } else {
                None
            },
            None => None,
        }
    } else {
        None
    }
}

/// The task objects of an array whose opening bracket was just read, and
/// what follows its closing bracket.
#[verifier::opaque]
pub open spec fn parse_task_list(s: Seq<char>) -> Option<(Seq<TaskView>, Seq<char>)> {
    if s.len() > 0 && s[0] == ']' {
        Some((Seq::empty(), s.drop_first()))
    } else {
        match parse_task(s) {
            Some((t, s2)) => match parse_more_tasks(s2) {
                Some((ts, r)) => Some((seq![t] + ts, r)),
                None => None,
            },
            None => None,
        }
    }
}

/// The group object at the front of `s`, and what follows it.
#[verifier::opaque]
pub open spec fn parse_group(s: Seq<char>) -> Option<(GroupView, Seq<char>)> {
    match after(s, "{\"title\":"@) {
        Some(s1) => match parse_string(s1) {
            Some((title, s2)) => match after(s2, ",\"class\":"@) {
                Some(s3) => match parse_string(s3) {
                    Some((class, s4)) => match after(s4, ",\"tasks\":["@) {
                        Some(s5) => match parse_task_list(s5) {
                            Some((tasks, s6)) => match after(s6, "}"@) {
                                Some(s7) => Some((GroupView { title, class, tasks }, s7)),
                                None => None,
                            },
                            None => None,
                        },
                        None => None,
                    },
                    None => None,
                },
                None => None,
            },
            None => None,
        },
        None => None,
    }
}

/// The group objects that follow, each after a comma, up to the closing
/// bracket at the front of `s`, and what follows that bracket.
#[verifier::opaque]
pub open spec fn parse_more_groups(s: Seq<char>) -> Option<(Seq<GroupView>, Seq<char>)>
    decreases s.len(),
{
    if s.len() > 0 && s[0] == ']' {
        Some((Seq::empty(), s.drop_first()))
    } else if s.len() > 0 && s[0] == ',' {
        match parse_group(s.drop_first()) {
            Some((g, s2)) => if s2.len() < s.len() {
                match parse_more_groups(s2) {
                    Some((gs, r)) => Some((seq![g] + gs, r)),
                    None => None,
                }
            } else {
                None
            },
            None => None,
        }
    } else {
        None
    }
}

/// The group objects of an array whose opening bracket was just read, and
/// what follows its closing bracket.
#[verifier::opaque]
pub open spec fn parse_group_list(s: Seq<char>) -> Option<(Seq<GroupView>, Seq<char>)> {
    if s.len() > 0 && s[0] == ']' {
        Some((Seq::empty(), s.drop_first()))
    } else {
        match parse_group(s) {
            Some((g, s2)) => match parse_more_groups(s2) {
                Some((gs, r)) => Some((seq![g] + gs, r)),
                None => None,
            },
            None => None,
        }
    }
}

/// The registry that the JSON text `s` describes, where `s` is an array of
/// group objects and nothing more.
pub open spec fn parse_registry(s: Seq<char>) -> Option<Seq<GroupView>> {
    if s.len() > 0 && s[0] == '[' {
        match parse_group_list(s.drop_first()) {
            Some((gs, r)) => if r.len() == 0 {
                Some(gs)
            } else {
                None
            },
            None => None,
        }
    } else {
        None
    }
}

proof fn lemma_task_round_trip(t: TaskView, r: Seq<char>)
    ensures
        parse_task(task_json(t) + r) == Some((t, r)),
{
    reveal(parse_task);
    let l1 = "{\"title\":"@;
    let l2 = ",\"id\":"@;
    let l3 = "}"@;
    let q = quoted(t.title);
    let d = decimal(t.id as nat);
    assert(task_json(t) + r =~= l1 + (q + (l2 + (d + (l3 + r)))));
    lemma_after(l1, q + (l2 + (d + (l3 + r))));
    lemma_string_round_trip(t.title, l2 + (d + (l3 + r)));
    lemma_after(l2, d + (l3 + r));
    reveal_strlit("}");
    lemma_number_round_trip(t.id as nat, l3 + r);
    lemma_after(l3, r);
}

proof fn lemma_task_start(t: TaskView, r: Seq<char>)
    ensures
        (task_json(t) + r)[0] == '{',
{
    reveal_strlit("{\"title\":");
    assert((task_json(t) + r)[0] == "{\"title\":"@[0]);
}

proof fn lemma_group_start(g: GroupView, r: Seq<char>)
    ensures
        (group_json(g) + r)[0] == '{',
{
    reveal_strlit("{\"title\":");
    assert((group_json(g) + r)[0] == "{\"title\":"@[0]);
}

/// The task objects of `us`, each after a comma.
pub open spec fn more_tasks_json(us: Seq<TaskView>) -> Seq<char>
    decreases us.len(),
{
    if us.len() == 0 {
        Seq::empty()
    } else {
        ","@ + task_json(us[0]) + more_tasks_json(us.drop_first())
    }
}

proof fn lemma_more_tasks_push(us: Seq<TaskView>, u: TaskView)
    ensures
        more_tasks_json(us.push(u)) == more_tasks_json(us) + ","@ + task_json(u),
    decreases us.len(),
{
    if us.len() == 0 {
        assert(us.push(u).drop_first() =~= Seq::<TaskView>::empty());
        assert(us.push(u)[0] == u);
        assert(more_tasks_json(us.push(u).drop_first()) == Seq::<char>::empty());
        assert(more_tasks_json(us) == Seq::<char>::empty());
        assert(more_tasks_json(us.push(u)) =~= more_tasks_json(us) + ","@ + task_json(u));
    } else {
        lemma_more_tasks_push(us.drop_first(), u);
        assert(us.push(u).drop_first() =~= us.drop_first().push(u));
        assert(us.push(u)[0] == us[0]);
        assert(more_tasks_json(us) == ","@ + task_json(us[0]) + more_tasks_json(us.drop_first()));
        assert(more_tasks_json(us.push(u)) == ","@ + task_json(us[0]) + more_tasks_json(us.drop_first().push(u)));
        assert(more_tasks_json(us.push(u)) =~= more_tasks_json(us) + ","@ + task_json(u));
    }
}

proof fn lemma_tasks_front(ts: Seq<TaskView>)
    requires
        ts.len() > 0,
    ensures
        tasks_json(ts) == task_json(ts[0]) + more_tasks_json(ts.drop_first()),
    decreases ts.len(),
{
    if ts.len() == 1 {
        assert(ts.drop_first() =~= Seq::<TaskView>::empty());
        assert(tasks_json(ts) =~= task_json(ts[0]) + more_tasks_json(ts.drop_first()));
    } else {
        let p = ts.drop_last();
        lemma_tasks_front(p);
        lemma_more_tasks_push(p.drop_first(), ts.last());
        assert(p.drop_first().push(ts.last()) =~= ts.drop_first());
        assert(p[0] == ts[0]);
        assert(tasks_json(ts) =~= task_json(ts[0]) + more_tasks_json(ts.drop_first()));
    }
}

proof fn lemma_more_tasks_round_trip(us: Seq<TaskView>, r: Seq<char>)
    ensures
        parse_more_tasks(more_tasks_json(us) + (seq![']'] + r)) == Some((us, r)),
    decreases us.len(),
{
    reveal(parse_more_tasks);
    let s = more_tasks_json(us) + (seq![']'] + r);
    if us.len() == 0 {
        assert(s =~= seq![']'] + r);
        assert(s.drop_first() =~= r);
        assert(us =~= Seq::<TaskView>::empty());
    } else {
        let rest = more_tasks_json(us.drop_first()) + (seq![']'] + r);
        reveal_strlit(",");
        assert(s =~= seq![','] + (task_json(us[0]) + rest));
        assert(s.drop_first() =~= task_json(us[0]) + rest);
        lemma_task_round_trip(us[0], rest);
        lemma_more_tasks_round_trip(us.drop_first(), r);
        assert(seq![us[0]] + us.drop_first() =~= us);
    }
}

proof fn lemma_task_list_round_trip(ts: Seq<TaskView>, r: Seq<char>)
    ensures
        parse_task_list(tasks_json(ts) + (seq![']'] + r)) == Some((ts, r)),
{
    reveal(parse_task_list);
    let s = tasks_json(ts) + (seq![']'] + r);
    if ts.len() == 0 {
        assert(s =~= seq![']'] + r);
        assert(s.drop_first() =~= r);
        assert(ts =~= Seq::<TaskView>::empty());
    } else {
        lemma_tasks_front(ts);
        let rest = more_tasks_json(ts.drop_first()) + (seq![']'] + r);
        assert(s =~= task_json(ts[0]) + rest);
        lemma_task_start(ts[0], rest);
        lemma_task_round_trip(ts[0], rest);
        lemma_more_tasks_round_trip(ts.drop_first(), r);
        assert(seq![ts[0]] + ts.drop_first() =~= ts);
    }
}

proof fn lemma_group_round_trip(g: GroupView, r: Seq<char>)
    ensures
        parse_group(group_json(g) + r) == Some((g, r)),
{
    reveal(parse_group);
    let l1 = "{\"title\":"@;
    let l2 = ",\"class\":"@;
    let l3 = ",\"tasks\":["@;
    let l4 = "]}"@;
    let l5 = "}"@;
    reveal_strlit("]}");
    reveal_strlit("}");
    assert(l4 =~= seq![']'] + l5);
    let qt = quoted(g.title);
    let qc = quoted(g.class);
    let body = tasks_json(g.tasks);
    assert(group_json(g) + r =~= l1 + (qt + (l2 + (qc + (l3 + (body + (seq![']'] + (l5 + r))))))));
    lemma_after(l1, qt + (l2 + (qc + (l3 + (body + (seq![']'] + (l5 + r)))))));
    lemma_string_round_trip(g.title, l2 + (qc + (l3 + (body + (seq![']'] + (l5 + r))))));
    lemma_after(l2, qc + (l3 + (body + (seq![']'] + (l5 + r)))));
    lemma_string_round_trip(g.class, l3 + (body + (seq![']'] + (l5 + r))));
    lemma_after(l3, body + (seq![']'] + (l5 + r)));
    lemma_task_list_round_trip(g.tasks, l5 + r);
    lemma_after(l5, r);
}

/// The group objects of `hs`, each after a comma.
pub open spec fn more_groups_json(hs: Seq<GroupView>) -> Seq<char>
    decreases hs.len(),
{
    if hs.len() == 0 {
        Seq::empty()
    } else {
        ","@ + group_json(hs[0]) + more_groups_json(hs.drop_first())
    }
}

proof fn lemma_more_groups_push(hs: Seq<GroupView>, h: GroupView)
    ensures
        more_groups_json(hs.push(h)) == more_groups_json(hs) + ","@ + group_json(h),
    decreases hs.len(),
{
    if hs.len() == 0 {
        assert(hs.push(h).drop_first() =~= Seq::<GroupView>::empty());
        assert(hs.push(h)[0] == h);
        assert(more_groups_json(hs.push(h).drop_first()) == Seq::<char>::empty());
        assert(more_groups_json(hs) == Seq::<char>::empty());
        assert(more_groups_json(hs.push(h)) =~= more_groups_json(hs) + ","@ + group_json(h));
    } else {
        lemma_more_groups_push(hs.drop_first(), h);
        assert(hs.push(h).drop_first() =~= hs.drop_first().push(h));
        assert(hs.push(h)[0] == hs[0]);
        assert(more_groups_json(hs) == ","@ + group_json(hs[0]) + more_groups_json(hs.drop_first()));
        assert(more_groups_json(hs.push(h)) == ","@ + group_json(hs[0]) + more_groups_json(hs.drop_first().push(h)));
        assert(more_groups_json(hs.push(h)) =~= more_groups_json(hs) + ","@ + group_json(h));
    }
}

proof fn lemma_groups_front(gs: Seq<GroupView>)
    requires
        gs.len() > 0,
    ensures
        groups_json(gs) == group_json(gs[0]) + more_groups_json(gs.drop_first()),
    decreases gs.len(),
{
    if gs.len() == 1 {
        assert(gs.drop_first() =~= Seq::<GroupView>::empty());
        assert(groups_json(gs) =~= group_json(gs[0]) + more_groups_json(gs.drop_first()));
    } else {
        let p = gs.drop_last();
        lemma_groups_front(p);
        lemma_more_groups_push(p.drop_first(), gs.last());
        assert(p.drop_first().push(gs.last()) =~= gs.drop_first());
        assert(p[0] == gs[0]);
        assert(groups_json(gs) =~= group_json(gs[0]) + more_groups_json(gs.drop_first()));
    }
}

proof fn lemma_more_groups_round_trip(hs: Seq<GroupView>, r: Seq<char>)
    ensures
        parse_more_groups(more_groups_json(hs) + (seq![']'] + r)) == Some((hs, r)),
    decreases hs.len(),
{
    reveal(parse_more_groups);
    let s = more_groups_json(hs) + (seq![']'] + r);
    if hs.len() == 0 {
        assert(s =~= seq![']'] + r);
        assert(s.drop_first() =~= r);
        assert(hs =~= Seq::<GroupView>::empty());
    } else {
        let rest = more_groups_json(hs.drop_first()) + (seq![']'] + r);
        reveal_strlit(",");
        assert(s =~= seq![','] + (group_json(hs[0]) + rest));
        assert(s.drop_first() =~= group_json(hs[0]) + rest);
        lemma_group_round_trip(hs[0], rest);
        lemma_more_groups_round_trip(hs.drop_first(), r);
        assert(seq![hs[0]] + hs.drop_first() =~= hs);
    }
}

/// Decoding the JSON text of a registry gives that registry back: the same
/// groups in the same order, each with its title and class, and the same
/// tasks in the same order, each with its title and id. This holds wherever
/// the encoder accepted every text of the registry.
pub proof fn lemma_text_round_trip(gs: Seq<GroupView>)
    requires
        quotable(gs),
    ensures
        parse_registry(registry_text(gs)) == Some(gs),
{
    reveal(parse_group_list);
    let body = groups_json(gs);
    let s = registry_text(gs);
    reveal_strlit("[");
    reveal_strlit("]");
    assert(s =~= seq!['['] + (body + (seq![']'] + Seq::<char>::empty())));
    assert(s.drop_first() =~= body + (seq![']'] + Seq::<char>::empty()));
    if gs.len() == 0 {
        assert(gs =~= Seq::<GroupView>::empty());
    } else {
        lemma_groups_front(gs);
        let rest = more_groups_json(gs.drop_first()) + (seq![']'] + Seq::<char>::empty());
        assert(s.drop_first() =~= group_json(gs[0]) + rest);
        lemma_group_start(gs[0], rest);
        lemma_group_round_trip(gs[0], rest);
        lemma_more_groups_round_trip(gs.drop_first(), Seq::<char>::empty());
        assert(seq![gs[0]] + gs.drop_first() =~= gs);
    }
}

} // verus!
