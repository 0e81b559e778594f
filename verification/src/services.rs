//! systemd unit state, as `systemctl show` reports it.
use vstd::prelude::*;
use vstd::string::StringExecFns;
use crate::strings::{decode_lossy, string_from_chars, utf8_lossy};
use crate::text::{
    chars_equal, chars_of, lemma_lines_of_line_then_rest, lines, no_newline, split_lines, strip_cr,
    strip_prefix, strip_prefix_spec, views,
};

verus! {

/// The health of one systemd unit.
#[derive(Debug, Clone)]
pub struct ServiceStatus {
    pub name: String,
    pub active: bool,
    pub failed: bool,
    pub status: String,
}

/// A unit to watch, and whether it runs under the user's service manager
/// (`systemctl --user`).
#[derive(Debug, Clone)]
pub struct MonitoredService {
    pub unit: String,
    pub user: bool,
}

/// The units the monitor watches, in the order it reports them.
pub open spec fn monitored_units() -> Seq<(Seq<char>, bool)> {
    seq![
        ("NetworkManager.service"@, false),
        ("pipewire.service"@, true),
        ("pipewire-pulse.service"@, true),
        ("wireplumber.service"@, true),
    ]
}

/// The units the monitor watches.
pub fn monitored_services() -> (out: Vec<MonitoredService>)
    ensures
        out@.len() == monitored_units().len(),
        forall|i: int|
            0 <= i < out@.len() ==> (#[trigger] out@[i]).unit@ == monitored_units()[i].0
                && out@[i].user == monitored_units()[i].1,
        forall|i: int| 0 <= i < out@.len() ==> (#[trigger] out@[i]).unit@.len() > 0,
{
    let mut out: Vec<MonitoredService> = Vec::new();
    out.push(MonitoredService { unit: String::from_str("NetworkManager.service"), user: false });
    out.push(MonitoredService { unit: String::from_str("pipewire.service"), user: true });
    out.push(MonitoredService { unit: String::from_str("pipewire-pulse.service"), user: true });
    out.push(MonitoredService { unit: String::from_str("wireplumber.service"), user: true });
    proof {
        reveal_strlit("NetworkManager.service");
        reveal_strlit("pipewire.service");
        reveal_strlit("pipewire-pulse.service");
        reveal_strlit("wireplumber.service");
    }
    out
}

/// The `LoadState`, `ActiveState` and `SubState` values after reading the
/// lines `ls` in order; a later line overrides an earlier one.
pub open spec fn show_scan(
    ls: Seq<Seq<char>>,
    load: Seq<char>,
    active: Seq<char>,
    sub: Seq<char>,
) -> (Seq<char>, Seq<char>, Seq<char>)
    decreases ls.len(),
{
    if ls.len() == 0 {
        (load, active, sub)
    } else {
        let rest = ls.drop_first();
        match strip_prefix_spec(ls[0], "LoadState="@) {
            Some(v) => show_scan(rest, v, active, sub),
            None => match strip_prefix_spec(ls[0], "ActiveState="@) {
                Some(v) => show_scan(rest, load, v, sub),
                None => match strip_prefix_spec(ls[0], "SubState="@) {
                    Some(v) => show_scan(rest, load, active, v),
                    None => show_scan(rest, load, active, sub),
                },
            },
        }
    }
}

/// The status of a unit from the output of `systemctl show <unit> -p
/// LoadState -p ActiveState -p SubState`: active when its active state is
/// `active`; failed when it is not found or its active state is `failed`;
/// its status is its sub-state. Missing values count as empty.
pub open spec fn status_from_show(text: Seq<char>) -> (bool, bool, Seq<char>) {
    let (load, active, sub) = show_scan(lines(text), seq![], seq![], seq![]);
    (active == "active"@, load == "not-found"@ || active == "failed"@, sub)
}

/// The status of `unit` from the text that `systemctl show` printed.
pub fn service_status_from_text(unit: &str, text: &str) -> (s: ServiceStatus)
    ensures
        s.name@ == unit@,
        (s.active, s.failed, s.status@) == status_from_show(text@),
{
    let cs = chars_of(text);
    let ls = split_lines(&cs);
    let load_label = chars_of("LoadState=");
    let active_label = chars_of("ActiveState=");
    let sub_label = chars_of("SubState=");
    let ghost lv = lines(cs@);
    assert(views(ls@).len() == ls@.len());
    assert(lv.skip(0) =~= lv);
    let mut load: Vec<char> = Vec::new();
    let mut active: Vec<char> = Vec::new();
    let mut sub: Vec<char> = Vec::new();
    let mut i: usize = 0;
    while i < ls.len()
        invariant
            i <= ls@.len(),
            lv == views(ls@),
            load_label@ == "LoadState="@,
            active_label@ == "ActiveState="@,
            sub_label@ == "SubState="@,
            show_scan(lv, seq![], seq![], seq![]) == show_scan(
                lv.skip(i as int),
                load@,
                active@,
                sub@,
            ),
        decreases ls@.len() - i,
    {
        let ghost rest = lv.skip(i as int);
        assert(rest[0] == ls@[i as int]@);
        assert(rest.drop_first() =~= lv.skip(i + 1));
        if let Some(v) = strip_prefix(&ls[i], &load_label) {
            load = v;
        } else if let Some(v) = strip_prefix(&ls[i], &active_label) {
            active = v;
        } else if let Some(v) = strip_prefix(&ls[i], &sub_label) {
            sub = v;
        }
        i = i + 1;
    }
    assert(lv.skip(ls@.len() as int) =~= Seq::<Seq<char>>::empty());
    let active_word = chars_of("active");
    let not_found = chars_of("not-found");
    let failed_word = chars_of("failed");
    let is_active = chars_equal(&active, &active_word);
    let is_failed = chars_equal(&load, &not_found) || chars_equal(&active, &failed_word);
    ServiceStatus {
        name: String::from_str(unit),
        active: is_active,
        failed: is_failed,
        status: string_from_chars(&sub),
    }
}

/// The status of `unit` from the standard output of `systemctl show`,
/// decoded leniently as UTF-8 (`String::from_utf8_lossy`).
pub fn service_status_from_show(unit: &str, stdout: &[u8]) -> (s: ServiceStatus)
    ensures
        s.name@ == unit@,
        (s.active, s.failed, s.status@) == status_from_show(utf8_lossy(stdout@)),
{
    let text = decode_lossy(stdout);
    service_status_from_text(unit, text.as_str())
}

/// A property value as `systemctl show` prints it on one line: no line
/// feed in it, and no carriage return at its end.
pub open spec fn one_line_value(v: Seq<char>) -> bool {
    no_newline(v) && (v.len() == 0 || v.last() != '\r')
}

/// The output of `systemctl show <unit> -p LoadState -p ActiveState -p
/// SubState` for the given values.
pub open spec fn show_output(load: Seq<char>, active: Seq<char>, sub: Seq<char>) -> Seq<char> {
    "LoadState="@ + load + seq!['\n'] + "ActiveState="@ + active + seq!['\n'] + "SubState="@
        + sub + seq!['\n']
}

proof fn lemma_labelled_line(label: Seq<char>, v: Seq<char>)
    requires
        label.len() > 0,
        no_newline(label),
        label.last() != '\r',
        one_line_value(v),
    ensures
        no_newline(label + v),
        strip_cr(label + v) == label + v,
        strip_prefix_spec(label + v, label) == Some(v),
{
    let l = label + v;
    assert forall|i: int| 0 <= i < l.len() implies l[i] != '\n' by {
        if i < label.len() {
            assert(l[i] == label[i]);
        } else {
            assert(l[i] == v[i - label.len()]);
        }
    }
    assert(l.last() != '\r') by {
        if v.len() > 0 {
            assert(l.last() == v.last());
        } else {
            assert(l.last() == label.last());
        }
    }
    assert(label =~= l.subrange(0, label.len() as int));
    assert(l.skip(label.len() as int) =~= v);
}

/// A unit's status follows its reported values: it is active exactly when
/// its active state is `active`, failed exactly when its load state is
/// `not-found` or its active state is `failed` (whatever its sub-state), and
/// its status is its sub-state.
pub proof fn lemma_status_from_values(load: Seq<char>, active: Seq<char>, sub: Seq<char>)
    requires
        one_line_value(load),
        one_line_value(active),
        one_line_value(sub),
    ensures
        status_from_show(show_output(load, active, sub)) == (
            active == "active"@,
            load == "not-found"@ || active == "failed"@,
            sub,
        ),
{
    reveal_strlit("LoadState=");
    reveal_strlit("ActiveState=");
    reveal_strlit("SubState=");
    let ll = "LoadState="@;
    let al = "ActiveState="@;
    let sl = "SubState="@;
    assert(no_newline(ll) && no_newline(al) && no_newline(sl));
    lemma_labelled_line(ll, load);
    lemma_labelled_line(al, active);
    lemma_labelled_line(sl, sub);
    let l1 = ll + load;
    let l2 = al + active;
    let l3 = sl + sub;
    let nl = seq!['\n'];
    let empty = Seq::<char>::empty();
    assert(show_output(load, active, sub) =~= l1 + nl + (l2 + nl + (l3 + nl + empty)));
    lemma_lines_of_line_then_rest(l3, empty);
    lemma_lines_of_line_then_rest(l2, l3 + nl + empty);
    lemma_lines_of_line_then_rest(l1, l2 + nl + (l3 + nl + empty));
    assert(lines(empty) == Seq::<Seq<char>>::empty());
    let ls = seq![l1, l2, l3];
    assert(lines(show_output(load, active, sub)) =~= ls);
    assert(l2[0] == 'A' && l3[0] == 'S');
    assert(!ll.is_prefix_of(l2)) by {
        if ll.is_prefix_of(l2) {
            assert(l2.subrange(0, ll.len() as int)[0] == l2[0]);
        }
    }
    assert(!ll.is_prefix_of(l3)) by {
        if ll.is_prefix_of(l3) {
            assert(l3.subrange(0, ll.len() as int)[0] == l3[0]);
        }
    }
    assert(!al.is_prefix_of(l3)) by {
        if al.is_prefix_of(l3) {
            assert(l3.subrange(0, al.len() as int)[0] == l3[0]);
        }
    }
    assert(ls.drop_first() =~= seq![l2, l3]);
    assert(seq![l2, l3].drop_first() =~= seq![l3]);
    assert(seq![l3].drop_first() =~= Seq::<Seq<char>>::empty());
    assert(seq![l3][0] == l3);
    assert(strip_prefix_spec(l3, ll) is None);
    assert(strip_prefix_spec(l3, al) is None);
    assert(show_scan(Seq::<Seq<char>>::empty(), load, active, sub) == (load, active, sub));
    assert(show_scan(seq![l3], load, active, seq![]) == (load, active, sub));
    assert(seq![l2, l3][0] == l2);
    assert(strip_prefix_spec(l2, ll) is None);
    assert(ls[0] == l1);
    assert(show_scan(seq![l2, l3], load, seq![], seq![]) == (load, active, sub));
    assert(show_scan(ls, seq![], seq![], seq![]) == (load, active, sub));
}

/// Reading the same lines from any two starting sub-states ends in the same
/// load and active states.
proof fn lemma_scan_ignores_sub(
    ls: Seq<Seq<char>>,
    load: Seq<char>,
    active: Seq<char>,
    s1: Seq<char>,
    s2: Seq<char>,
)
    ensures
        show_scan(ls, load, active, s1).0 == show_scan(ls, load, active, s2).0,
        show_scan(ls, load, active, s1).1 == show_scan(ls, load, active, s2).1,
    decreases ls.len(),
{
    if ls.len() > 0 {
        let rest = ls.drop_first();
        match strip_prefix_spec(ls[0], "LoadState="@) {
            Some(v) => lemma_scan_ignores_sub(rest, v, active, s1, s2),
            None => match strip_prefix_spec(ls[0], "ActiveState="@) {
                Some(v) => lemma_scan_ignores_sub(rest, load, v, s1, s2),
                None => match strip_prefix_spec(ls[0], "SubState="@) {
                    Some(v) => lemma_scan_ignores_sub(rest, load, active, v, v),
                    None => lemma_scan_ignores_sub(rest, load, active, s1, s2),
                },
            },
        }
    }
}

/// Whether a unit is active or failed never depends on a `SubState` line:
/// putting one, with any value, in front of any output leaves both as they
/// were; only the status changes.
pub proof fn lemma_sub_state_line_ignored(v: Seq<char>, rest: Seq<char>)
    requires
        one_line_value(v),
    ensures
        status_from_show("SubState="@ + v + seq!['\n'] + rest).0 == status_from_show(rest).0,
        status_from_show("SubState="@ + v + seq!['\n'] + rest).1 == status_from_show(rest).1,
{
    reveal_strlit("LoadState=");
    reveal_strlit("ActiveState=");
    reveal_strlit("SubState=");
    let ll = "LoadState="@;
    let al = "ActiveState="@;
    let sl = "SubState="@;
    assert(no_newline(sl));
    lemma_labelled_line(sl, v);
    let l = sl + v;
    lemma_lines_of_line_then_rest(l, rest);
    let ls = lines(l + seq!['\n'] + rest);
    assert(ls[0] == l);
    assert(ls.drop_first() =~= lines(rest));
    assert(l[0] == 'S');
    assert(!ll.is_prefix_of(l)) by {
        if ll.is_prefix_of(l) {
            assert(l.subrange(0, ll.len() as int)[0] == l[0]);
        }
    }
    assert(!al.is_prefix_of(l)) by {
        if al.is_prefix_of(l) {
            assert(l.subrange(0, al.len() as int)[0] == l[0]);
        }
    }
    assert(strip_prefix_spec(l, ll) is None);
    assert(strip_prefix_spec(l, al) is None);
    assert(show_scan(ls, seq![], seq![], seq![]) == show_scan(lines(rest), seq![], seq![], v));
    lemma_scan_ignores_sub(lines(rest), seq![], seq![], v, seq![]);
}

} // verus!
