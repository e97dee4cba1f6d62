//! Facts about floating-point numbers.
//!
//! A float is held by its IEEE 754 bits. What the bits mean is settled outside:
//! a table lists what is known of the floats at hand, and whoever needs a fact
//! that is not listed asks for it.

use crate::ir::BinOp;
use crate::ranking::{ordered_scores, score_lists, votes_v, Comparison, ComparisonV};
use crate::text::{text_eq, texts};
use crate::value::is_nan;
use vstd::prelude::*;

verus! {

/// One fact.
#[derive(Debug)]
pub enum Fact {
    /// What a text parses to, if it is a number.
    Parsed(String, Option<u64>),
    /// How a float is written in diagnostic notation.
    Shown(u64, String),
    /// How a float is written in the shortest way.
    Short(u64, String),
    /// What an operator gives for two floats.
    Arith(BinOp, u64, u64, u64),
    /// The float nearest to an integer.
    OfInt(i128, u64),
    /// The integer at or below a float.
    Floor(u64, i64),
    /// The scores of votes on names, for each component in turn.
    Scores(Vec<String>, Vec<Comparison>, Vec<Vec<u64>>),
}

pub enum FactV {
    Parsed(Seq<char>, Option<u64>),
    Shown(u64, Seq<char>),
    Short(u64, Seq<char>),
    Arith(BinOp, u64, u64, u64),
    OfInt(i128, u64),
    Floor(u64, i64),
    Scores(Seq<Seq<char>>, Seq<ComparisonV>, Seq<Seq<u64>>),
}

impl View for Fact {
    type V = FactV;

    open spec fn view(&self) -> FactV {
        match *self {
            Fact::Parsed(s, b) => FactV::Parsed(s@, b),
            Fact::Shown(b, s) => FactV::Shown(b, s@),
            Fact::Short(b, s) => FactV::Short(b, s@),
            Fact::Arith(op, a, b, c) => FactV::Arith(op, a, b, c),
            Fact::OfInt(i, b) => FactV::OfInt(i, b),
            Fact::Floor(b, i) => FactV::Floor(b, i),
            Fact::Scores(ids, votes, scores) => FactV::Scores(
                texts(ids@),
                votes_v(votes@),
                score_lists(scores@),
            ),
        }
    }
}

/// What is known of the floats at hand.
#[derive(Debug)]
pub struct FloatTable {
    pub facts: Vec<Fact>,
}

impl View for FloatTable {
    type V = Seq<FactV>;

    open spec fn view(&self) -> Seq<FactV> {
        self.facts@.map_values(|f: Fact| f@)
    }
}

/// What `s` parses to, by the last fact that says so.
pub open spec fn parsed(f: Seq<FactV>, s: Seq<char>) -> Option<Option<u64>>
    decreases f.len(),
{
    if f.len() == 0 {
        None
    } else {
        match f.last() {
            FactV::Parsed(t, b) => if t == s {
                Some(b)
            } else {
                parsed(f.drop_last(), s)
            },
            _ => parsed(f.drop_last(), s),
        }
    }
}

/// How `x` is written, by the last fact that says so.
pub open spec fn shown(f: Seq<FactV>, x: u64) -> Option<Seq<char>>
    decreases f.len(),
{
    if f.len() == 0 {
        None
    } else {
        match f.last() {
            FactV::Shown(y, s) => if x == y {
                Some(s)
            } else {
                shown(f.drop_last(), x)
            },
            _ => shown(f.drop_last(), x),
        }
    }
}

/// How `x` is written in the shortest way, by the last fact that says so.
pub open spec fn short(f: Seq<FactV>, x: u64) -> Option<Seq<char>>
    decreases f.len(),
{
    if f.len() == 0 {
        None
    } else {
        match f.last() {
            FactV::Short(y, s) => if x == y {
                Some(s)
            } else {
                short(f.drop_last(), x)
            },
            _ => short(f.drop_last(), x),
        }
    }
}

/// What `op` gives for `x` and `y`, by the last fact that says so.
pub open spec fn computed(f: Seq<FactV>, op: BinOp, x: u64, y: u64) -> Option<u64>
    decreases f.len(),
{
    if f.len() == 0 {
        None
    } else {
        match f.last() {
            FactV::Arith(o, a, b, c) => if o == op && a == x && b == y {
                Some(c)
            } else {
                computed(f.drop_last(), op, x, y)
            },
            _ => computed(f.drop_last(), op, x, y),
        }
    }
}

/// The float nearest to `i`, by the last fact that says so.
pub open spec fn of_int(f: Seq<FactV>, i: i128) -> Option<u64>
    decreases f.len(),
{
    if f.len() == 0 {
        None
    } else {
        match f.last() {
            FactV::OfInt(j, b) => if i == j {
                Some(b)
            } else {
                of_int(f.drop_last(), i)
            },
            _ => of_int(f.drop_last(), i),
        }
    }
}

/// The integer at or below `x`, by the last fact that says so.
pub open spec fn floored(f: Seq<FactV>, x: u64) -> Option<i64>
    decreases f.len(),
{
    if f.len() == 0 {
        None
    } else {
        match f.last() {
            FactV::Floor(y, i) => if x == y {
                Some(i)
            } else {
                floored(f.drop_last(), x)
            },
            _ => floored(f.drop_last(), x),
        }
    }
}

/// No score of the lists is NaN.
pub open spec fn all_ordered(scores: Seq<Seq<u64>>) -> bool {
    forall|k: int| 0 <= k < scores.len() ==> ordered_scores(#[trigger] scores[k])
}

/// The scores of the votes on the names, by the last fact that gives them
/// without a NaN.
pub open spec fn scored(f: Seq<FactV>, ids: Seq<Seq<char>>, votes: Seq<ComparisonV>) -> Option<
    Seq<Seq<u64>>,
>
    decreases f.len(),
{
    if f.len() == 0 {
        None
    } else {
        match f.last() {
            FactV::Scores(i, v, scores) => if i == ids && v == votes && all_ordered(scores) {
                Some(scores)
            } else {
                scored(f.drop_last(), ids, votes)
            },
            _ => scored(f.drop_last(), ids, votes),
        }
    }
}

/// `g` knows what `f` knows, and may know more.
pub open spec fn extends(f: Seq<FactV>, g: Seq<FactV>) -> bool {
    &&& forall|s: Seq<char>| (#[trigger] parsed(f, s)) is Some ==> parsed(g, s) == parsed(f, s)
    &&& forall|x: u64| (#[trigger] shown(f, x)) is Some ==> shown(g, x) == shown(f, x)
    &&& forall|x: u64| (#[trigger] short(f, x)) is Some ==> short(g, x) == short(f, x)
    &&& forall|op: BinOp, x: u64, y: u64|
        (#[trigger] computed(f, op, x, y)) is Some ==> computed(g, op, x, y) == computed(f, op, x, y)
    &&& forall|i: i128| (#[trigger] of_int(f, i)) is Some ==> of_int(g, i) == of_int(f, i)
    &&& forall|x: u64| (#[trigger] floored(f, x)) is Some ==> floored(g, x) == floored(f, x)
    &&& forall|ids: Seq<Seq<char>>, votes: Seq<ComparisonV>|
        (#[trigger] scored(f, ids, votes)) is Some ==> scored(g, ids, votes) == scored(
            f,
            ids,
            votes,
        )
}

/// What the fact settles is settled already.
pub open spec fn settled(f: Seq<FactV>, fact: FactV) -> bool {
    match fact {
        FactV::Parsed(s, _) => parsed(f, s) is Some,
        FactV::Shown(x, _) => shown(f, x) is Some,
        FactV::Short(x, _) => short(f, x) is Some,
        FactV::Arith(op, x, y, _) => computed(f, op, x, y) is Some,
        FactV::OfInt(i, _) => of_int(f, i) is Some,
        FactV::Floor(x, _) => floored(f, x) is Some,
        FactV::Scores(ids, votes, _) => scored(f, ids, votes) is Some,
    }
}

/// Learning what was not settled takes nothing back.
pub proof fn law_learning_extends(f: Seq<FactV>, fact: FactV)
    requires
        !settled(f, fact),
    ensures
        extends(f, f.push(fact)),
        extends(f, f),
{
    assert(f.push(fact).drop_last() =~= f);
}

fn same_names(a: &Vec<String>, b: &Vec<String>) -> (r: bool)
    ensures
        r == (texts(a@) == texts(b@)),
{
    if a.len() != b.len() {
        assert(texts(a@).len() != texts(b@).len());
        return false;
    }
    let mut i: usize = 0;
    while i < a.len()
        invariant
            i <= a@.len(),
            a@.len() == b@.len(),
            forall|j: int| 0 <= j < i ==> (#[trigger] a@[j])@ == b@[j]@,
        decreases a@.len() - i,
    {
        if !text_eq(a[i].as_str(), b[i].as_str()) {
            assert(texts(a@)[i as int] != texts(b@)[i as int]);
            return false;
        }
        i = i + 1;
    }
    assert(texts(a@) =~= texts(b@));
    true
}

fn same_votes(a: &Vec<Comparison>, b: &Vec<Comparison>) -> (r: bool)
    ensures
        r == (votes_v(a@) == votes_v(b@)),
{
    if a.len() != b.len() {
        assert(votes_v(a@).len() != votes_v(b@).len());
        return false;
    }
    let mut i: usize = 0;
    while i < a.len()
        invariant
            i <= a@.len(),
            a@.len() == b@.len(),
            forall|j: int| 0 <= j < i ==> (#[trigger] a@[j])@ == b@[j]@,
        decreases a@.len() - i,
    {
        if !text_eq(a[i].a_id.as_str(), b[i].a_id.as_str()) || !text_eq(
            a[i].b_id.as_str(),
            b[i].b_id.as_str(),
        ) || a[i].score != b[i].score {
            assert(votes_v(a@)[i as int] != votes_v(b@)[i as int]);
            return false;
        }
        i = i + 1;
    }
    assert(votes_v(a@) =~= votes_v(b@));
    true
}

/// A copy of the scores, if none of them is NaN.
fn copy_scores(v: &Vec<Vec<u64>>) -> (r: Option<Vec<Vec<u64>>>)
    ensures
        match r {
            Some(w) => all_ordered(score_lists(v@)) && score_lists(w@) == score_lists(v@),
            None => !all_ordered(score_lists(v@)),
        },
{
    let ghost vv = score_lists(v@);
    let mut out: Vec<Vec<u64>> = Vec::new();
    let mut i: usize = 0;
    while i < v.len()
        invariant
            i <= v@.len(),
            vv == score_lists(v@),
            out@.len() == i,
            forall|j: int| 0 <= j < i ==> (#[trigger] out@[j])@ == v@[j]@,
            forall|j: int| 0 <= j < i ==> ordered_scores(#[trigger] vv[j]),
        decreases v@.len() - i,
    {
        let mut list: Vec<u64> = Vec::new();
        let mut k: usize = 0;
        assert(vv[i as int] == v@[i as int]@);
        while k < v[i].len()
            invariant
                i < v@.len(),
                vv == score_lists(v@),
                vv[i as int] == v@[i as int]@,
                k <= v@[i as int]@.len(),
                list@ == v@[i as int]@.take(k as int),
                forall|j: int| 0 <= j < k ==> !is_nan(#[trigger] v@[i as int]@[j]),
            decreases v@[i as int]@.len() - k,
        {
            let b: u64 = v[i][k];
            if b % 0x8000_0000_0000_0000 > 0x7ff0_0000_0000_0000 {
                assert(is_nan(vv[i as int][k as int]));
                return None;
            }
            list.push(b);
            assert(list@ =~= v@[i as int]@.take(k + 1));
            k = k + 1;
        }
        assert(list@ =~= v@[i as int]@);
        out.push(list);
        i = i + 1;
    }
    assert(score_lists(out@) =~= vv);
    Some(out)
}

impl FloatTable {
    pub fn new() -> (r: FloatTable)
        ensures
            r@ == Seq::<FactV>::empty(),
    {
        let r = FloatTable { facts: Vec::new() };
        assert(r@ =~= Seq::<FactV>::empty());
        r
    }

    /// Adds a fact. One that settles what was open takes nothing back.
    pub fn learn(&mut self, f: Fact)
        ensures
            final(self)@ == old(self)@.push(f@),
            !settled(old(self)@, f@) ==> extends(old(self)@, final(self)@),
    {
        self.facts.push(f);
        assert(self@ =~= old(self)@.push(f@));
        proof {
            if !settled(old(self)@, f@) {
                law_learning_extends(old(self)@, f@);
            }
        }
    }

    /// What `s` parses to.
    pub fn parsed(&self, s: &str) -> (r: Option<Option<u64>>)
        ensures
            r == parsed(self@, s@),
    {
        let mut n: usize = self.facts.len();
        assert(self@.take(n as int) =~= self@);
        while n > 0
            invariant
                n <= self@.len(),
                self@.len() == self.facts@.len(),
                parsed(self@, s@) == parsed(self@.take(n as int), s@),
            decreases n,
        {
            assert(self@.take(n as int).drop_last() =~= self@.take(n - 1));
            assert(self@.take(n as int).last() == self.facts@[n - 1]@);
            if let Fact::Parsed(t, b) = &self.facts[n - 1] {
                if text_eq(t.as_str(), s) {
                    return Some(*b);
                }
            }
            n = n - 1;
        }
        None
    }

    /// How `x` is written.
    pub fn shown(&self, x: u64) -> (r: Option<String>)
        ensures
            match (r, shown(self@, x)) {
                (Some(s), Some(t)) => s@ == t,
                (None, None) => true,
                _ => false,
            },
    {
        let mut n: usize = self.facts.len();
        assert(self@.take(n as int) =~= self@);
        while n > 0
            invariant
                n <= self@.len(),
                self@.len() == self.facts@.len(),
                shown(self@, x) == shown(self@.take(n as int), x),
            decreases n,
        {
            assert(self@.take(n as int).drop_last() =~= self@.take(n - 1));
            assert(self@.take(n as int).last() == self.facts@[n - 1]@);
            if let Fact::Shown(y, s) = &self.facts[n - 1] {
                if x == *y {
                    return Some(s.clone());
                }
            }
            n = n - 1;
        }
        None
    }

    /// How `x` is written in the shortest way.
    pub fn short(&self, x: u64) -> (r: Option<String>)
        ensures
            match (r, short(self@, x)) {
                (Some(s), Some(t)) => s@ == t,
                (None, None) => true,
                _ => false,
            },
    {
        let mut n: usize = self.facts.len();
        assert(self@.take(n as int) =~= self@);
        while n > 0
            invariant
                n <= self@.len(),
                self@.len() == self.facts@.len(),
                short(self@, x) == short(self@.take(n as int), x),
            decreases n,
        {
            assert(self@.take(n as int).drop_last() =~= self@.take(n - 1));
            assert(self@.take(n as int).last() == self.facts@[n - 1]@);
            if let Fact::Short(y, s) = &self.facts[n - 1] {
                if x == *y {
                    return Some(s.clone());
                }
            }
            n = n - 1;
        }
        None
    }

    /// What `op` gives for `x` and `y`.
    pub fn computed(&self, op: BinOp, x: u64, y: u64) -> (r: Option<u64>)
        ensures
            r == computed(self@, op, x, y),
    {
        let mut n: usize = self.facts.len();
        assert(self@.take(n as int) =~= self@);
        while n > 0
            invariant
                n <= self@.len(),
                self@.len() == self.facts@.len(),
                computed(self@, op, x, y) == computed(self@.take(n as int), op, x, y),
            decreases n,
        {
            assert(self@.take(n as int).drop_last() =~= self@.take(n - 1));
            assert(self@.take(n as int).last() == self.facts@[n - 1]@);
            if let Fact::Arith(o, a, b, c) = &self.facts[n - 1] {
                if *o == op && *a == x && *b == y {
                    return Some(*c);
                }
            }
            n = n - 1;
        }
        None
    }

    /// The float nearest to `i`.
    pub fn of_int(&self, i: i128) -> (r: Option<u64>)
        ensures
            r == of_int(self@, i),
    {
        let mut n: usize = self.facts.len();
        assert(self@.take(n as int) =~= self@);
        while n > 0
            invariant
                n <= self@.len(),
                self@.len() == self.facts@.len(),
                of_int(self@, i) == of_int(self@.take(n as int), i),
            decreases n,
        {
            assert(self@.take(n as int).drop_last() =~= self@.take(n - 1));
            assert(self@.take(n as int).last() == self.facts@[n - 1]@);
            if let Fact::OfInt(j, b) = &self.facts[n - 1] {
                if i == *j {
                    return Some(*b);
                }
            }
            n = n - 1;
        }
        None
    }

    /// The integer at or below `x`.
    pub fn floored(&self, x: u64) -> (r: Option<i64>)
        ensures
            r == floored(self@, x),
    {
        let mut n: usize = self.facts.len();
        assert(self@.take(n as int) =~= self@);
        while n > 0
            invariant
                n <= self@.len(),
                self@.len() == self.facts@.len(),
                floored(self@, x) == floored(self@.take(n as int), x),
            decreases n,
        {
            assert(self@.take(n as int).drop_last() =~= self@.take(n - 1));
            assert(self@.take(n as int).last() == self.facts@[n - 1]@);
            if let Fact::Floor(y, i) = &self.facts[n - 1] {
                if x == *y {
                    return Some(*i);
                }
            }
            n = n - 1;
        }
        None
    }

    /// The scores of the votes on the names.
    pub fn scored(&self, ids: &Vec<String>, votes: &Vec<Comparison>) -> (r: Option<Vec<Vec<u64>>>)
        ensures
            match (r, scored(self@, texts(ids@), votes_v(votes@))) {
                (Some(v), Some(w)) => score_lists(v@) == w && all_ordered(w),
                (None, None) => true,
                _ => false,
            },
    {
        let mut n: usize = self.facts.len();
        assert(self@.take(n as int) =~= self@);
        while n > 0
            invariant
                n <= self@.len(),
                self@.len() == self.facts@.len(),
                scored(self@, texts(ids@), votes_v(votes@)) == scored(
                    self@.take(n as int),
                    texts(ids@),
                    votes_v(votes@),
                ),
            decreases n,
        {
            assert(self@.take(n as int).drop_last() =~= self@.take(n - 1));
            assert(self@.take(n as int).last() == self.facts@[n - 1]@);
            if let Fact::Scores(i, v, scores) = &self.facts[n - 1] {
                if same_names(i, ids) && same_votes(v, votes) {
                    match copy_scores(scores) {
                        Some(s) => {
                            return Some(s);
                        },
                        None => {},
                    }
                }
            }
            n = n - 1;
        }
        None
    }
}

} // verus!
