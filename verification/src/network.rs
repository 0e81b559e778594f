//! `/proc/net/dev`: per-interface byte counters.
use vstd::prelude::*;
use crate::strings::string_from_chars;
use crate::text::{
    chars_of, lines, parse_u64, parse_u64_spec, split_lines, split_once, split_once_spec,
    split_whitespace, trim, trim_spec, views, words,
};

verus! {

/// Cumulative bytes received and sent by one network interface.
#[derive(Debug, Clone)]
pub struct NetworkSample {
    pub name: String,
    pub rx_bytes: u64,
    pub tx_bytes: u64,
}

/// A network sample as plain values: name, bytes received, bytes sent.
pub open spec fn sample_view(s: NetworkSample) -> (Seq<char>, u64, u64) {
    (s.name@, s.rx_bytes, s.tx_bytes)
}

pub open spec fn sample_views(v: Seq<NetworkSample>) -> Seq<(Seq<char>, u64, u64)> {
    v.map_values(|s: NetworkSample| sample_view(s))
}

/// A counter field: its number, or zero when it is not one.
pub open spec fn counter(w: Seq<char>) -> u64 {
    match parse_u64_spec(w) {
        Some(v) => v,
        None => 0,
    }
}

/// The sample an interface line gives: the trimmed text before the first
/// `:` names the interface; of the words after it, the first counts bytes
/// received and the ninth bytes sent. Lines without a `:` or with fewer than
/// nine words give none.
pub open spec fn interface_line(line: Seq<char>) -> Option<(Seq<char>, u64, u64)> {
    match split_once_spec(line, ':') {
        None => None,
        Some((name, values)) => {
            let f = words(values);
            if f.len() < 9 {
                None
            } else {
                Some((trim_spec(name), counter(f[0]), counter(f[8])))
            }
        },
    }
}

/// The samples of the lines `ls`, in order.
pub open spec fn interface_lines(ls: Seq<Seq<char>>) -> Seq<(Seq<char>, u64, u64)>
    decreases ls.len(),
{
    if ls.len() == 0 {
        seq![]
    } else {
        let rest = interface_lines(ls.drop_last());
        match interface_line(ls.last()) {
            Some(e) => rest.push(e),
            None => rest,
        }
    }
}

/// What `read_network_samples` makes of the text of `/proc/net/dev`: the
/// two header lines are skipped, then each interface line gives a sample.
pub open spec fn net_dev_samples(contents: Seq<char>) -> Seq<(Seq<char>, u64, u64)> {
    let ls = lines(contents);
    if ls.len() <= 2 {
        seq![]
    } else {
        interface_lines(ls.skip(2))
    }
}

/// The sample of one interface line, if it is one.
fn read_interface_line(line: &[char]) -> (r: Option<NetworkSample>)
    ensures
        r matches Some(s) ==> interface_line(line@) == Some(sample_view(s)),
        r is None ==> interface_line(line@) is None,
{
    match split_once(line, ':') {
        None => None,
        Some((name, values)) => {
            let f = split_whitespace(&values);
            assert(views(f@).len() == f@.len());
            if f.len() < 9 {
                return None;
            }
            assert(views(f@)[0] == f@[0]@);
            assert(views(f@)[8] == f@[8]@);
            let rx_bytes = match parse_u64(&f[0]) {
                Some(v) => v,
                None => 0,
            };
            let tx_bytes = match parse_u64(&f[8]) {
                Some(v) => v,
                None => 0,
            };
            let trimmed = trim(&name);
            Some(NetworkSample { name: string_from_chars(&trimmed), rx_bytes, tx_bytes })
        },
    }
}

/// The per-interface counters in the text of `/proc/net/dev`, in the order
/// of its lines.
pub fn network_samples_from_net_dev(contents: &str) -> (out: Vec<NetworkSample>)
    ensures
        sample_views(out@) == net_dev_samples(contents@),
{
    let cs = chars_of(contents);
    let ls = split_lines(&cs);
    let ghost lv = lines(contents@);
    assert(views(ls@).len() == ls@.len());
    let mut out: Vec<NetworkSample> = Vec::new();
    if ls.len() <= 2 {
        assert(sample_views(out@) =~= Seq::<(Seq<char>, u64, u64)>::empty());
        return out;
    }
    let mut i: usize = 2;
    assert(lv.subrange(2, 2) =~= Seq::<Seq<char>>::empty());
    while i < ls.len()
        invariant
            2 <= i <= ls@.len(),
            lv == views(ls@),
            lv == lines(contents@),
            sample_views(out@) == interface_lines(lv.subrange(2, i as int)),
        decreases ls@.len() - i,
    {
        let ghost part = lv.subrange(2, i + 1);
        assert(part.drop_last() =~= lv.subrange(2, i as int));
        assert(part.last() == ls@[i as int]@);
        let ghost before = out@;
        match read_interface_line(&ls[i]) {
            Some(s) => {
                out.push(s);
                assert(sample_views(out@) =~= sample_views(before).push(sample_view(s)));
            },
            None => {},
        }
        i = i + 1;
    }
    assert(lv.subrange(2, ls@.len() as int) =~= lv.skip(2));
    out
}

} // verus!
