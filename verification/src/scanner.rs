//! Reading facts from a listing of index keys: each key's name ends with the
//! transaction of its fact after the last `/`; the facts of transactions up to a
//! bound become fact rules.

use vstd::prelude::*;

use crate::engine::{rules_view, Atom, Rule, RuleV, Term, TermV};
use crate::grammar::chars_of;
use crate::model::{Fact, FactV};
use crate::query_executor::fact_rule;
use crate::tx_manager::TxId;
use crate::value::value_text;

verus! {

/// The text after the last `/` of `s` (all of `s` when it has none).
pub open spec fn last_segment(s: Seq<char>) -> Seq<char>
    decreases s.len(),
{
    if s.len() == 0 {
        s
    } else if s.last() == '/' {
        Seq::empty()
    } else {
        last_segment(s.drop_last()).push(s.last())
    }
}

pub open spec fn is_digit(c: char) -> bool {
    '0' <= c && c <= '9'
}

/// The value of a decimal digit.
pub open spec fn digit_value(c: char) -> nat {
    if c == '1' {
        1
    } else if c == '2' {
        2
    } else if c == '3' {
        3
    } else if c == '4' {
        4
    } else if c == '5' {
        5
    } else if c == '6' {
        6
    } else if c == '7' {
        7
    } else if c == '8' {
        8
    } else if c == '9' {
        9
    } else {
        0
    }
}

/// The number a run of decimal digits spells.
pub open spec fn digits_value(s: Seq<char>) -> nat
    decreases s.len(),
{
    if s.len() == 0 {
        0
    } else {
        digits_value(s.drop_last()) * 10 + digit_value(s.last())
    }
}

/// The digits of an unsigned number's text: what follows an optional `+`.
pub open spec fn unsigned_digits(s: Seq<char>) -> Seq<char> {
    if s.len() > 0 && s[0] == '+' {
        s.drop_first()
    } else {
        s
    }
}

/// The text is an unsigned decimal number: an optional `+` and one or more digits.
pub open spec fn is_unsigned_text(s: Seq<char>) -> bool {
    &&& unsigned_digits(s).len() > 0
    &&& forall|i: int| 0 <= i < unsigned_digits(s).len() ==> is_digit(#[trigger] unsigned_digits(s)[i])
}

/// The transaction a key's name ends with.
pub open spec fn key_tx(name: Seq<char>) -> nat {
    digits_value(unsigned_digits(last_segment(name)))
}

/// The key's name ends with a transaction that fits in 64 bits.
pub open spec fn readable_key(name: Seq<char>) -> bool {
    is_unsigned_text(last_segment(name)) && key_tx(name) <= u64::MAX
}

/// The fact rules of the listed facts whose key names a transaction up to `max_tx`, in order.
pub open spec fn fetched_rules(listing: Seq<(Seq<char>, FactV)>, max_tx: u64) -> Seq<RuleV>
    decreases listing.len(),
{
    if listing.len() == 0 {
        Seq::empty()
    } else {
        let rest = fetched_rules(listing.drop_last(), max_tx);
        if key_tx(listing.last().0) <= max_tx {
            rest.push(fact_rule(listing.last().1))
        } else {
            rest
        }
    }
}

pub open spec fn listing_view(listing: Seq<(String, Fact)>) -> Seq<(Seq<char>, FactV)> {
    listing.map_values(|p: (String, Fact)| (p.0@, p.1@))
}

/// A number's value is at least that of any first part of its digits.
proof fn lemma_digits_value_prefix(s: Seq<char>, k: int)
    requires
        0 <= k <= s.len(),
    ensures
        digits_value(s.take(k)) <= digits_value(s),
    decreases s.len() - k,
{
    if k < s.len() {
        lemma_digits_value_prefix(s, k + 1);
        assert(s.take(k + 1).drop_last() =~= s.take(k));
    } else {
        assert(s.take(k) =~= s);
    }
}

fn digit_of(c: char) -> (r: u64)
    ensures
        r == digit_value(c),
{
    if c == '1' {
        1
    } else if c == '2' {
        2
    } else if c == '3' {
        3
    } else if c == '4' {
        4
    } else if c == '5' {
        5
    } else if c == '6' {
        6
    } else if c == '7' {
        7
    } else if c == '8' {
        8
    } else if c == '9' {
        9
    } else {
        0
    }
}

/// The transaction a key's name ends with.
pub fn key_tx_id(name: &str) -> (r: TxId)
    requires
        readable_key(name@),
    ensures
        r.0 == key_tx(name@),
{
    let chars = chars_of(name);
    let ghost s = name@;
    let n = chars.len();
    let mut start: usize = 0;
    let mut i: usize = 0;
    while i < n
        invariant
            n == s.len(),
            chars@ == s,
            start <= i <= n,
            last_segment(s.take(i as int)) == s.subrange(start as int, i as int),
        decreases n - i,
    {
        proof {
            assert(s.take(i + 1).drop_last() =~= s.take(i as int));
            assert(s.take(i + 1).last() == s[i as int]);
        }
        if chars[i] == '/' {
            start = i + 1;
            proof {
                assert(s.subrange(start as int, i + 1) =~= Seq::<char>::empty());
            }
        } else {
            proof {
                assert(s.subrange(start as int, i + 1) =~= s.subrange(start as int, i as int).push(s[i as int]));
            }
        }
        i = i + 1;
    }
    proof {
        assert(s.take(n as int) =~= s);
    }
    let ghost seg = s.subrange(start as int, n as int);
    let mut j = start;
    if j < n && chars[j] == '+' {
        j = j + 1;
    }
    let ghost d = unsigned_digits(seg);
    proof {
        assert(d =~= s.subrange(j as int, n as int));
        lemma_digits_value_prefix(d, d.len() as int);
    }
    let mut v: u64 = 0;
    let mut m: usize = j;
    proof {
        assert(d.take(0) =~= Seq::<char>::empty());
    }
    while m < n
        invariant
            j <= m <= n,
            n == s.len(),
            chars@ == s,
            d == s.subrange(j as int, n as int),
            is_unsigned_text(seg),
            d == unsigned_digits(seg),
            digits_value(d) <= u64::MAX,
            v == digits_value(d.take(m - j)),
        decreases n - m,
    {
        proof {
            lemma_digits_value_prefix(d, m - j + 1);
            assert(d.take(m - j + 1).drop_last() =~= d.take(m - j));
            assert(d.take(m - j + 1).last() == chars@[m as int]);
        }
        let dv = digit_of(chars[m]);
        v = v * 10 + dv;
        m = m + 1;
    }
    proof {
        assert(d.take(n - j) =~= d);
    }
    TxId(v)
}

/// The fact rules of the listed facts whose key's transaction is at most `max_tx`,
/// in the order of the listing: `field(entity, value)` for each.
pub fn fetch_rules(listing: &Vec<(String, Fact)>, max_tx: TxId) -> (r: Vec<Rule>)
    requires
        forall|i: int| 0 <= i < listing@.len() ==> readable_key(#[trigger] listing@[i].0@),
    ensures
        rules_view(r@) == fetched_rules(listing_view(listing@), max_tx.0),
{
    let ghost lv = listing_view(listing@);
    let mut rules: Vec<Rule> = Vec::new();
    let mut i: usize = 0;
    proof {
        assert(lv.take(0) =~= Seq::<(Seq<char>, FactV)>::empty());
    }
    while i < listing.len()
        invariant
            i <= listing@.len(),
            lv == listing_view(listing@),
            forall|k: int| 0 <= k < listing@.len() ==> readable_key(#[trigger] listing@[k].0@),
            rules_view(rules@) == fetched_rules(lv.take(i as int), max_tx.0),
        decreases listing@.len() - i,
    {
        let (name, fact) = &listing[i];
        proof {
            assert(lv.take(i + 1).drop_last() =~= lv.take(i as int));
            assert(lv.take(i + 1).last() == (name@, fact@));
        }
        let tx = key_tx_id(name.as_str());
        if tx.0 <= max_tx.0 {
            let mut args: Vec<Term> = Vec::new();
            args.push(Term::Sym(fact.entity.to_string()));
            args.push(Term::Sym(fact.value.to_string()));
            let rule = Rule { head: Atom { relation: Term::Sym(fact.field.to_string()), args }, body: Vec::new() };
            let ghost before = rules_view(rules@);
            rules.push(rule);
            proof {
                assert(rule@.head.args =~= seq![TermV::Sym(fact@.entity), TermV::Sym(value_text(fact@.value))]);
                assert(rule@.body =~= Seq::<crate::engine::AtomV>::empty());
                assert(rule@ == fact_rule(fact@));
                assert(rules_view(rules@) =~= before.push(rule@));
            }
        }
        i = i + 1;
    }
    proof {
        assert(lv.take(listing@.len() as int) =~= lv);
    }
    rules
}

} // verus!
