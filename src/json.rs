//! The JSON text of a registry: an array of groups, each an object with
//! `title`, `class` and `tasks`, each task an object with `title` and `id`.
use vstd::prelude::*;
use vstd::string::StringExecFns;
use crate::registry::{Group, GroupView, Task, TaskView};

verus! {

/// The JSON escape of one character: quote, backslash and the control
/// characters are escaped, any other character stands for itself.
pub open spec fn escaped_char(c: char) -> Seq<char> {
    if c == '"' {
        seq!['\\', '"']
    } else if c == '\\' {
        seq!['\\', '\\']
    } else if c == '\x08' {
        seq!['\\', 'b']
    } else if c == '\t' {
        seq!['\\', 't']
    } else if c == '\n' {
        seq!['\\', 'n']
    } else if c == '\x0c' {
        seq!['\\', 'f']
    } else if c == '\r' {
        seq!['\\', 'r']
    } else if (c as u32) < 0x20 {
        seq!['\\', 'u', '0', '0', hex_digit((c as u32) / 16), hex_digit((c as u32) % 16)]
    } else {
        seq![c]
    }
}

/// The lower-case hexadecimal digit of `d`, for `d < 16`.
pub open spec fn hex_digit(d: u32) -> char {
    seq!['0', '1', '2', '3', '4', '5', '6', '7', '8', '9', 'a', 'b', 'c', 'd', 'e', 'f'][d as int]
}

/// `s` with each character escaped.
pub open spec fn escaped(s: Seq<char>) -> Seq<char>
    decreases s.len(),
{
    if s.len() == 0 {
        Seq::empty()
    } else {
        escaped(s.drop_last()) + escaped_char(s.last())
    }
}

/// The JSON string literal of `s`.
pub open spec fn quoted(s: Seq<char>) -> Seq<char> {
    seq!['"'] + escaped(s) + seq!['"']
}

/// Whether the JSON encoder accepts the text `s`.
pub uninterp spec fn json_quote_ok(s: Seq<char>) -> bool;

/// Relies on serde_json::to_string on a `str`: where it succeeds it returns
/// the JSON string literal of the text (quote, backslash and control
/// characters escaped as its escape table gives, `\u00xx` in lower-case hex
/// for the other control characters); whether it succeeds depends on the
/// text alone.
#[verifier::external_body]
fn json_quote(s: &str) -> (r: Option<String>)
    ensures
        r is Some <==> json_quote_ok(s@),
        r matches Some(q) ==> q@ == quoted(s@),
{
    serde_json::to_string(s).ok()
}

/// The decimal digit of `d`, for `d < 10`.
pub open spec fn digit(d: nat) -> char {
    seq!['0', '1', '2', '3', '4', '5', '6', '7', '8', '9'][d as int]
}

/// The decimal numeral of `n`, without leading zeros.
pub open spec fn decimal(n: nat) -> Seq<char>
    decreases n,
{
    if n < 10 {
        seq![digit(n)]
    } else {
        decimal(n / 10).push(digit(n % 10))
    }
}

fn digit_text(d: u64) -> (r: &'static str)
    requires
        d < 10,
    ensures
        r@ == seq![digit(d as nat)],
{
    if d == 0 {
        proof { reveal_strlit("0"); }
        "0"
    } else if d == 1 {
        proof { reveal_strlit("1"); }
        "1"
    } else if d == 2 {
        proof { reveal_strlit("2"); }
        "2"
    } else if d == 3 {
        proof { reveal_strlit("3"); }
        "3"
    } else if d == 4 {
        proof { reveal_strlit("4"); }
        "4"
    } else if d == 5 {
        proof { reveal_strlit("5"); }
        "5"
    } else if d == 6 {
        proof { reveal_strlit("6"); }
        "6"
    } else if d == 7 {
        proof { reveal_strlit("7"); }
        "7"
    } else if d == 8 {
        proof { reveal_strlit("8"); }
        "8"
    } else {
        proof { reveal_strlit("9"); }
        "9"
    }
}

/// Appends the decimal numeral of `n` to `out`.
fn push_decimal(out: &mut String, n: u64)
    ensures
        final(out)@ == old(out)@ + decimal(n as nat),
    decreases n,
{
    if n >= 10 {
        push_decimal(out, n / 10);
    }
    out.append(digit_text(n % 10));
}

/// The JSON object of task `t`.
pub open spec fn task_json(t: TaskView) -> Seq<char> {
    "{\"title\":"@ + quoted(t.title) + ",\"id\":"@ + decimal(t.id as nat) + "}"@
}

/// The JSON objects of `ts`, separated by commas.
pub open spec fn tasks_json(ts: Seq<TaskView>) -> Seq<char>
    decreases ts.len(),
{
    if ts.len() == 0 {
        Seq::empty()
    } else if ts.len() == 1 {
        task_json(ts[0])
    } else {
        tasks_json(ts.drop_last()) + ","@ + task_json(ts.last())
    }
}

/// The JSON object of group `g`.
pub open spec fn group_json(g: GroupView) -> Seq<char> {
    "{\"title\":"@ + quoted(g.title) + ",\"class\":"@ + quoted(g.class) + ",\"tasks\":["@ + tasks_json(g.tasks)
        + "]}"@
}

/// The JSON objects of `gs`, separated by commas.
pub open spec fn groups_json(gs: Seq<GroupView>) -> Seq<char>
    decreases gs.len(),
{
    if gs.len() == 0 {
        Seq::empty()
    } else if gs.len() == 1 {
        group_json(gs[0])
    } else {
        groups_json(gs.drop_last()) + ","@ + group_json(gs.last())
    }
}

/// Whether the encoder accepts every title of `ts`.
pub open spec fn tasks_quotable(ts: Seq<TaskView>) -> bool {
    forall|k: int| 0 <= k < ts.len() ==> json_quote_ok(#[trigger] ts[k].title)
}

/// Whether the encoder accepts every text of group `g`.
pub open spec fn group_quotable(g: GroupView) -> bool {
    json_quote_ok(g.title) && json_quote_ok(g.class) && tasks_quotable(g.tasks)
}

/// Whether the encoder accepts every text of `gs`.
pub open spec fn quotable(gs: Seq<GroupView>) -> bool {
    forall|i: int| 0 <= i < gs.len() ==> group_quotable(#[trigger] gs[i])
}

/// The JSON text of the registry `gs`: the array of its groups, or the
/// empty array where the encoder refuses one of its texts.
pub open spec fn registry_text(gs: Seq<GroupView>) -> Seq<char> {
    if quotable(gs) {
        "["@ + groups_json(gs) + "]"@
    } else {
        "[]"@
    }
}

/// Appends the JSON object of `t` to `out`; false where the encoder refuses
/// its title.
fn append_task(out: &mut String, t: &Task) -> (ok: bool)
    ensures
        ok == json_quote_ok(t.title@),
        ok ==> final(out)@ == old(out)@ + task_json(t@),
{
    let q = match json_quote(t.title.as_str()) {
        Some(q) => q,
        None => return false,
    };
    out.append("{\"title\":");
    out.append(q.as_str());
    out.append(",\"id\":");
    push_decimal(out, t.id);
    out.append("}");
    assert(final(out)@ =~= old(out)@ + task_json(t@));
    true
}

/// Appends the JSON object of `g` to `out`; false where the encoder refuses
/// one of its texts.
fn append_group(out: &mut String, g: &Group) -> (ok: bool)
    ensures
        ok == group_quotable(g@),
        ok ==> final(out)@ == old(out)@ + group_json(g@),
{
    let qt = match json_quote(g.title.as_str()) {
        Some(q) => q,
        None => return false,
    };
    let qc = match json_quote(g.class.as_str()) {
        Some(q) => q,
        None => return false,
    };
    out.append("{\"title\":");
    out.append(qt.as_str());
    out.append(",\"class\":");
    out.append(qc.as_str());
    out.append(",\"tasks\":[");
    let ghost start = *out;
    let ghost tv = g.tasks@.map_values(|t: Task| t@);
    let n = g.tasks.len();
    let mut i: usize = 0;
    while i < n
        invariant
            n == g.tasks@.len(),
            tv == g.tasks@.map_values(|t: Task| t@),
            0 <= i <= n,
            out@ == start@ + tasks_json(tv.subrange(0, i as int)),
            tasks_quotable(tv.subrange(0, i as int)),
        decreases n - i,
    {
        let ghost mid = *out;
        if i > 0 {
            out.append(",");
        }
        let ok = append_task(out, &g.tasks[i]);
        if !ok {
            assert(tv[i as int].title == g.tasks@[i as int].title@);
            return false;
        }
        proof {
            let s = tv.subrange(0, i + 1);
            assert(s.drop_last() =~= tv.subrange(0, i as int));
            assert(s.last() == g.tasks@[i as int]@);
            if i == 0 {
                assert(out@ =~= start@ + tasks_json(s));
            } else {
                assert(out@ =~= start@ + tasks_json(s));
            }
            assert forall|k: int| 0 <= k < s.len() implies json_quote_ok(#[trigger] s[k].title) by {
                if k < i {
                    assert(s[k] == tv.subrange(0, i as int)[k]);
                }
            }
        }
        i += 1;
    }
    out.append("]}");
    assert(tv.subrange(0, n as int) =~= tv);
    assert(final(out)@ =~= old(out)@ + group_json(g@));
    true
}

/// The JSON text of the groups `groups`.
pub(crate) fn groups_text(groups: &Vec<Group>) -> (r: String)
    ensures
        r@ == registry_text(groups@.map_values(|g: Group| g@)),
{
    let ghost gs = groups@.map_values(|g: Group| g@);
    let mut out = String::from_str("[");
    let n = groups.len();
    let mut i: usize = 0;
    while i < n
        invariant
            n == groups@.len(),
            gs == groups@.map_values(|g: Group| g@),
            0 <= i <= n,
            out@ == "["@ + groups_json(gs.subrange(0, i as int)),
            quotable(gs.subrange(0, i as int)),
        decreases n - i,
    {
        if i > 0 {
            out.append(",");
        }
        let ok = append_group(&mut out, &groups[i]);
        if !ok {
            assert(!group_quotable(gs[i as int]));
            return String::from_str("[]");
        }
        proof {
            let s = gs.subrange(0, i + 1);
            assert(s.drop_last() =~= gs.subrange(0, i as int));
            assert(s.last() == gs[i as int]);
            assert(out@ =~= "["@ + groups_json(s));
            assert forall|k: int| 0 <= k < s.len() implies group_quotable(#[trigger] s[k]) by {
                if k < i {
                    assert(s[k] == gs.subrange(0, i as int)[k]);
                }
            }
        }
        i += 1;
    }
    out.append("]");
    assert(gs.subrange(0, n as int) =~= gs);
    out
}

} // verus!
