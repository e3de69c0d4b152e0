//! The configuration that the core consumes: the set of local ports to
//! watch, read from a comma-separated list, and whether a cycle's snapshot
//! has somewhere to go.
use std::collections::HashSet;
use vstd::prelude::*;
use crate::codec::{parse_u16_radix, u16_of_digits};
use crate::text::{chars_of, split_chars, split_on, trim, trim_chars, views};

verus! {

broadcast use vstd::std_specs::hash::group_hash_axioms;

/// The ports that the items `lo .. hi` of a comma-separated list name.
pub open spec fn tokens_ports(tokens: Seq<Seq<char>>, hi: int) -> Set<u16> {
    Set::new(
        |p: u16|
            exists|i: int| 0 <= i < hi && #[trigger] u16_of_digits(trim(tokens[i]), 10) == Some(p),
    )
}

/// The ports that a comma-separated list names: each item, with the
/// whitespace around it trimmed, that reads as a decimal 16-bit number.
/// Other items are dropped.
pub open spec fn port_list(s: Seq<char>) -> Set<u16> {
    let tokens = split_on(s, ',');
    tokens_ports(tokens, tokens.len() as int)
}

/// Reads the set of ports to watch from a comma-separated list; items that
/// are not a decimal 16-bit number are dropped.
pub fn parse_port_list(list: &str) -> (r: HashSet<u16>)
    ensures
        r@ == port_list(list@),
{
    let c = chars_of(list);
    let tokens = split_chars(&c, ',');
    let ghost tv = views(tokens@);
    let mut r: HashSet<u16> = HashSet::new();
    assert(r@ =~= tokens_ports(tv, 0));
    let mut i: usize = 0;
    while i < tokens.len()
        invariant
            i <= tokens@.len(),
            tv == views(tokens@),
            tv == split_on(c@, ','),
            c@ == list@,
            r@ == tokens_ports(tv, i as int),
        decreases tokens@.len() - i,
    {
        assert(tokens[i as int]@ == tv[i as int]);
        let t = trim_chars(&tokens[i]);
        let parsed = parse_u16_radix(&t, 10);
        let ghost prev = tokens_ports(tv, i as int);
        let ghost next = tokens_ports(tv, i + 1);
        match parsed {
            Some(p) => {
                r.insert(p);
                assert forall|q: u16| #[trigger] next.contains(q) <==> prev.insert(p).contains(q) by {
                    if next.contains(q) {
                        let j = choose|j: int| 0 <= j < i + 1 && #[trigger] u16_of_digits(trim(tv[j]), 10) == Some(q);
                        if j < i {
                            assert(prev.contains(q));
                        }
                    }
                    if prev.contains(q) {
                        let j = choose|j: int| 0 <= j < i && #[trigger] u16_of_digits(trim(tv[j]), 10) == Some(q);
                        assert(0 <= j < i + 1);
                    }
                }
                assert(r@ =~= next);
            },
            None => {
                assert forall|q: u16| #[trigger] next.contains(q) <==> prev.contains(q) by {
                    if next.contains(q) {
                        let j = choose|j: int| 0 <= j < i + 1 && #[trigger] u16_of_digits(trim(tv[j]), 10) == Some(q);
                        if j < i {
                            assert(prev.contains(q));
                        }
                    }
                    if prev.contains(q) {
                        let j = choose|j: int| 0 <= j < i && #[trigger] u16_of_digits(trim(tv[j]), 10) == Some(q);
                        assert(0 <= j < i + 1);
                    }
                }
                assert(r@ =~= next);
            },
        }
        i = i + 1;
    }
    r
}

/// Whether a snapshot has somewhere to go: an output file, or both a
/// message-bus broker and a topic.
pub fn has_output_target(output: bool, brokers: bool, topic: bool) -> (r: bool)
    ensures
        r == (output || (brokers && topic)),
{
    output || (brokers && topic)
}

} // verus!
