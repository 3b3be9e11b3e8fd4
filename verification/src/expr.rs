//! The expression tree and its expansion rules.
//!
//! A parsed pattern is a `NodeaggExpr`: a list of base expressions.  A base
//! expression is a list of sub-expressions, each a literal word or a bracketed
//! array group; it expands to the cartesian product of its parts, the last
//! part cycling fastest.  An array group is a list of numbers and inclusive
//! ranges; it expands to their concatenation, every number zero-padded to the
//! widest literal in the group.
//!
//! Every expansion is specified against a sequence-of-characters model:
//! `group_strings`, `base_strings` and `expr_strings` below say exactly which
//! names each level produces, and in which order.

use vstd::prelude::*;
use vstd::string::StrSliceExecFns;
use vstd::string::StringExecFns;
use crate::iter::{ConcatIterator, NodeaggIterator, Producer};
use crate::parser::{
    comment, comment_end, digit_run, is_digit, lemma_comment_end_le, lemma_digit_run_le,
    lemma_tabspace_run_le, lemma_word_run_le, scan_digits, scan_word, space_run, spaces,
    tabspace_run, tabspaces, word_run,
};

verus! {

/// An inclusive numeric range `[start-stop]`; `start > stop` yields nothing.
#[derive(Debug, PartialEq, Clone)]
pub struct NodeaggSubRange {
    pub start: u64,
    pub stop: u64,
}

/// A single number inside an array group.
#[derive(Debug, PartialEq, Clone)]
pub struct NodeaggSubNumber {
    pub value: u64,
}

#[derive(Debug, PartialEq, Clone)]
pub enum NodeaggSubArrayElementKind {
    Range(NodeaggSubRange),
    Number(NodeaggSubNumber),
}

/// One element of an array group, with the digit width of its literal:
/// the width of the number, or the wider of a range's two bounds.
#[derive(Debug, PartialEq, Clone)]
pub struct NodeaggSubArrayElement {
    pub width: usize,
    pub inner: NodeaggSubArrayElementKind,
}

/// A bracketed array group: one or more numbers or ranges.
#[derive(Debug, PartialEq, Clone)]
pub struct NodeaggSubArray {
    values: Vec<NodeaggSubArrayElement>,
}

/// A sub-expression: a literal word, or an array group.
#[derive(Debug, PartialEq, Clone)]
pub enum NodeaggSubExpr {
    NodeaggSub(String),
    Array(NodeaggSubArray),
}

/// A base expression: sub-expressions combined by cartesian product.
#[derive(Debug, PartialEq)]
pub struct NodeaggBaseExpr(Vec<NodeaggSubExpr>);

/// A whole pattern: base expressions concatenated, then deduplicated.
#[derive(Debug, PartialEq)]
pub struct NodeaggExpr(Vec<NodeaggBaseExpr>);

/// Mathematical shape of a sub-expression, used by the specifications.
pub enum SubExprModel {
    Word(Seq<char>),
    Arr(Seq<NodeaggSubArrayElement>),
}

/// The ascending inclusive sequence `a, a+1, ..., b`; empty when `a > b`.
pub open spec fn range_vals(a: int, b: int) -> Seq<u64> {
    if a <= b {
        Seq::new((b - a + 1) as nat, |k: int| (a + k) as u64)
    } else {
        Seq::empty()
    }
}

/// Lazily counts through one array element's numbers, one per `next` call.
pub struct ElemCursor {
    cur: u64,
    stop: u64,
    live: bool,
}

impl Producer for ElemCursor {
    type Item = u64;

    closed spec fn remaining(&self) -> Seq<u64> {
        if self.live && self.cur <= self.stop {
            range_vals(self.cur as int, self.stop as int)
        } else {
            Seq::empty()
        }
    }

    fn next(&mut self) -> (r: Option<u64>) {
        if !self.live {
            return None;
        }
        if self.cur > self.stop {
            self.live = false;
            return None;
        }
        let v = self.cur;
        if self.cur == self.stop {
            self.live = false;
        } else {
            self.cur = self.cur + 1;
        }
        proof {
            assert(old(self).remaining().first() == v);
            assert(final(self).remaining() =~= old(self).remaining().drop_first());
        }
        Some(v)
    }
}

impl NodeaggSubRange {
    /// The ascending inclusive sequence `start, start+1, ..., stop`;
    /// empty when `start > stop`.
    pub open spec fn values(&self) -> Seq<u64> {
        range_vals(self.start as int, self.stop as int)
    }

    /// Starts a lazy count over the range's numbers.
    pub fn iter(&self) -> (r: ElemCursor)
        ensures
            r.remaining() == self.values(),
    {
        ElemCursor { cur: self.start, stop: self.stop, live: self.start <= self.stop }
    }
}

impl NodeaggSubNumber {
    /// The one-element sequence holding the number itself.
    pub open spec fn values(&self) -> Seq<u64> {
        seq![self.value]
    }

    /// Starts a lazy count over the single number.
    pub fn iter(&self) -> (r: ElemCursor)
        ensures
            r.remaining() == self.values(),
    {
        let r = ElemCursor { cur: self.value, stop: self.value, live: true };
        proof {
            assert(r.remaining() =~= self.values());
        }
        r
    }
}

impl NodeaggSubArrayElement {
    /// The numbers this element enumerates; its width plays no part here.
    pub open spec fn values(&self) -> Seq<u64> {
        match self.inner {
            NodeaggSubArrayElementKind::Range(r) => r.values(),
            NodeaggSubArrayElementKind::Number(n) => n.values(),
        }
    }

    /// Starts a lazy count over the element's numbers.
    pub fn iter(&self) -> (r: ElemCursor)
        ensures
            r.remaining() == self.values(),
    {
        match &self.inner {
            NodeaggSubArrayElementKind::Range(x) => x.iter(),
            NodeaggSubArrayElementKind::Number(x) => x.iter(),
        }
    }
}

/// The decimal digit character for `d < 10`.
pub open spec fn digit_char(d: nat) -> char {
    if d == 0 { '0' }
    else if d == 1 { '1' }
    else if d == 2 { '2' }
    else if d == 3 { '3' }
    else if d == 4 { '4' }
    else if d == 5 { '5' }
    else if d == 6 { '6' }
    else if d == 7 { '7' }
    else if d == 8 { '8' }
    else { '9' }
}

/// The decimal digits of `n`, most significant first, no leading zeros
/// (except for `n == 0`, which is the single digit `0`).
pub open spec fn dec_digits(n: nat) -> Seq<char>
    decreases n,
{
    if n < 10 {
        seq![digit_char(n)]
    } else {
        dec_digits(n / 10).push(digit_char(n % 10))
    }
}

/// `n` zero characters.
pub open spec fn zeroes(n: nat) -> Seq<char> {
    Seq::new(n, |k: int| '0')
}

/// The decimal digits of `v`, left-padded with zeros to width `w`; a number
/// whose natural width exceeds `w` is printed in full, never truncated.
pub open spec fn width_str(v: nat, w: nat) -> Seq<char> {
    let d = dec_digits(v);
    if d.len() >= w {
        d
    } else {
        zeroes((w - d.len()) as nat) + d
    }
}

fn digit_str(d: u64) -> (r: &'static str)
    requires
        d < 10,
    ensures
        r@ == seq![digit_char(d as nat)],
{
    let r: &'static str = match d {
        0 => "0",
        1 => "1",
        2 => "2",
        3 => "3",
        4 => "4",
        5 => "5",
        6 => "6",
        7 => "7",
        8 => "8",
        _ => "9",
    };
    proof {
        reveal_strlit("0");
        reveal_strlit("1");
        reveal_strlit("2");
        reveal_strlit("3");
        reveal_strlit("4");
        reveal_strlit("5");
        reveal_strlit("6");
        reveal_strlit("7");
        reveal_strlit("8");
        reveal_strlit("9");
        assert(r@ =~= seq![digit_char(d as nat)]);
    }
    r
}

/// The decimal rendering of `n`.
pub fn u64_digits(n: u64) -> (r: String)
    ensures
        r@ == dec_digits(n as nat),
    decreases n,
{
    if n < 10 {
        String::from_str(digit_str(n))
    } else {
        let mut r = u64_digits(n / 10);
        r.append(digit_str(n % 10));
        proof {
            assert(r@ =~= dec_digits(n as nat));
        }
        r
    }
}

/// The decimal rendering of `v`, zero-padded on the left to width `w`.
pub fn format_width(v: u64, w: usize) -> (r: String)
    ensures
        r@ == width_str(v as nat, w as nat),
{
    let d = u64_digits(v);
    let dlen: usize = d.as_str().unicode_len();
    if dlen >= w {
        d
    } else {
        let mut r = String::new();
        let mut k: usize = 0;
        loop
            invariant
                0 <= k <= w - dlen,
                r@ =~= zeroes(k as nat),
            ensures
                r@ =~= zeroes((w - dlen) as nat),
            decreases w - dlen - k,
        {
            if k == w - dlen {
                break;
            }
            r.append("0");
            k = k + 1;
            proof {
                reveal_strlit("0");
                assert(r@ =~= zeroes(k as nat));
            }
        }
        r.append(d.as_str());
        proof {
            assert(r@ =~= width_str(v as nat, w as nat));
        }
        r
    }
}

/// The shared width of an array group: the widest element width, 0 for an
/// empty group (which the grammar never produces).
pub open spec fn group_width(es: Seq<NodeaggSubArrayElement>) -> nat
    decreases es.len(),
{
    if es.len() == 0 {
        0
    } else {
        let w = group_width(es.drop_last());
        if es.last().width as nat > w {
            es.last().width as nat
        } else {
            w
        }
    }
}

/// All numbers of an array group, element by element, in declaration order.
pub open spec fn group_values(es: Seq<NodeaggSubArrayElement>) -> Seq<u64>
    decreases es.len(),
{
    if es.len() == 0 {
        Seq::empty()
    } else {
        group_values(es.drop_last()) + es.last().values()
    }
}

/// Each value rendered in decimal and zero-padded to width `w`.
pub open spec fn padded(vals: Seq<u64>, w: nat) -> Seq<Seq<char>> {
    vals.map_values(|v: u64| width_str(v as nat, w))
}

/// The strings an array group expands to: its values in order, each padded
/// to the group's shared width.
pub open spec fn group_strings(es: Seq<NodeaggSubArrayElement>) -> Seq<Seq<char>> {
    padded(group_values(es), group_width(es))
}

/// The character sequences of a sequence of strings.
pub open spec fn str_views(v: Seq<String>) -> Seq<Seq<char>> {
    v.map_values(|s: String| s@)
}

/// `x` prepended to every sequence in `ys`.
pub open spec fn prefixed(x: Seq<char>, ys: Seq<Seq<char>>) -> Seq<Seq<char>> {
    ys.map_values(|y: Seq<char>| x + y)
}

proof fn lemma_str_views_push(v: Seq<String>, s: String)
    ensures
        str_views(v.push(s)) == str_views(v).push(s@),
{
    assert(str_views(v.push(s)) =~= str_views(v).push(s@));
}

fn max_width(es: &Vec<NodeaggSubArrayElement>) -> (w: usize)
    ensures
        w as nat == group_width(es@),
{
    let mut w: usize = 0;
    let mut i: usize = 0;
    while i < es.len()
        invariant
            0 <= i <= es@.len(),
            w as nat == group_width(es@.subrange(0, i as int)),
        decreases es@.len() - i,
    {
        proof {
            assert(es@.subrange(0, i + 1).drop_last() =~= es@.subrange(0, i as int));
        }
        if es[i].width > w {
            w = es[i].width;
        }
        i = i + 1;
    }
    proof {
        assert(es@.subrange(0, es@.len() as int) =~= es@);
    }
    w
}

impl View for NodeaggSubArray {
    type V = Seq<NodeaggSubArrayElement>;

    closed spec fn view(&self) -> Seq<NodeaggSubArrayElement> {
        self.values@
    }
}

impl NodeaggSubArray {
    /// Wraps a list of elements as an array group.
    pub fn new(values: Vec<NodeaggSubArrayElement>) -> (r: Self)
        ensures
            r@ == values@,
    {
        NodeaggSubArray { values }
    }

    /// Starts a lazy pass over the group's strings: every value of every
    /// element in order, padded to the group's shared width, computed one
    /// name per `next` call.
    pub fn iter(&self) -> (r: ArrayCursor)
        ensures
            r.remaining() == group_strings(self@),
    {
        let w = max_width(&self.values);
        let mut cursors: Vec<ElemCursor> = Vec::new();
        let mut i: usize = 0;
        while i < self.values.len()
            invariant
                0 <= i <= self.values@.len(),
                cursors@.map_values(|c: ElemCursor| c.remaining()).flatten() == group_values(
                    self.values@.subrange(0, i as int),
                ),
            decreases self.values@.len() - i,
        {
            broadcast use Seq::lemma_flatten_push;

            let ghost prev_map = cursors@.map_values(|c: ElemCursor| c.remaining());
            let c = self.values[i].iter();
            let ghost crem = c.remaining();
            cursors.push(c);
            i = i + 1;
            proof {
                assert(cursors@.map_values(|c2: ElemCursor| c2.remaining()) =~= prev_map.push(
                    crem,
                ));
                let pre = self.values@.subrange(0, i as int);
                assert(pre.drop_last() =~= self.values@.subrange(0, i - 1));
                assert(pre.last() == self.values@[i - 1]);
                assert(cursors@.map_values(|c2: ElemCursor| c2.remaining()).flatten()
                    == group_values(pre));
            }
        }
        proof {
            assert(self.values@.subrange(0, self.values@.len() as int) =~= self.values@);
        }
        ArrayCursor { inner: ConcatIterator::new(cursors), width: w }
    }
}

/// Lazily produces an array group's padded strings, formatting each number
/// only when it is asked for.
pub struct ArrayCursor {
    inner: ConcatIterator<ElemCursor>,
    width: usize,
}

impl ArrayCursor {
    /// The padded strings not yet produced, in order.
    pub closed spec fn remaining(&self) -> Seq<Seq<char>> {
        padded(self.inner.remaining(), self.width as nat)
    }

    /// Produces the next padded string, or `None` once the group is done.
    pub fn next(&mut self) -> (r: Option<String>)
        ensures
            old(self).remaining().len() == 0 ==> r is None && final(self).remaining() == old(
                self,
            ).remaining(),
            old(self).remaining().len() > 0 ==> match r {
                Some(v) => v@ == old(self).remaining().first() && final(self).remaining() == old(
                    self,
                ).remaining().drop_first(),
                None => false,
            },
    {
        match self.inner.next() {
            None => None,
            Some(v) => {
                proof {
                    assert(old(self).remaining().first() == width_str(v as nat, self.width as nat));
                    assert(final(self).remaining() =~= old(self).remaining().drop_first());
                }
                Some(format_width(v, self.width))
            },
        }
    }
}

/// The strings a sub-expression offers: a literal word is itself the one
/// choice; an array group offers its padded numbers.
pub open spec fn sub_strings(m: SubExprModel) -> Seq<Seq<char>> {
    match m {
        SubExprModel::Word(w) => seq![w],
        SubExprModel::Arr(es) => group_strings(es),
    }
}

impl View for NodeaggSubExpr {
    type V = SubExprModel;

    open spec fn view(&self) -> SubExprModel {
        match self {
            NodeaggSubExpr::NodeaggSub(s) => SubExprModel::Word(s@),
            NodeaggSubExpr::Array(a) => SubExprModel::Arr(a@),
        }
    }
}

/// Lazily produces a sub-expression's choices: the one literal word, or an
/// array group's padded numbers.
pub enum SubCursor {
    Word { text: String, done: bool },
    Arr(ArrayCursor),
}

impl SubCursor {
    /// The choices not yet produced, in order.
    pub closed spec fn remaining(&self) -> Seq<Seq<char>> {
        match self {
            SubCursor::Word { text, done } => if *done {
                Seq::<Seq<char>>::empty()
            } else {
                seq![text@]
            },
            SubCursor::Arr(a) => a.remaining(),
        }
    }

    /// Produces the next choice, or `None` once they are spent.
    pub fn next(&mut self) -> (r: Option<String>)
        ensures
            old(self).remaining().len() == 0 ==> r is None && final(self).remaining() == old(
                self,
            ).remaining(),
            old(self).remaining().len() > 0 ==> match r {
                Some(v) => v@ == old(self).remaining().first() && final(self).remaining() == old(
                    self,
                ).remaining().drop_first(),
                None => false,
            },
    {
        match self {
            SubCursor::Word { text, done } => {
                if *done {
                    None
                } else {
                    let t = text.clone();
                    *done = true;
                    proof {
                        assert(final(self).remaining() =~= old(self).remaining().drop_first());
                    }
                    Some(t)
                }
            },
            SubCursor::Arr(a) => a.next(),
        }
    }
}

impl NodeaggSubExpr {
    /// Starts a lazy pass over this sub-expression's choices.
    pub fn iter(&self) -> (r: SubCursor)
        ensures
            r.remaining() == sub_strings(self@),
    {
        match self {
            NodeaggSubExpr::NodeaggSub(s) => {
                let r = SubCursor::Word { text: s.clone(), done: false };
                proof {
                    assert(r.remaining() =~= sub_strings(self@));
                }
                r
            },
            NodeaggSubExpr::Array(a) => SubCursor::Arr(a.iter()),
        }
    }
}

/// All ways to pick one string from `a` and one from `b`, concatenated; the
/// choice from `b` cycles fastest.
pub open spec fn cross(a: Seq<Seq<char>>, b: Seq<Seq<char>>) -> Seq<Seq<char>>
    decreases a.len(),
{
    if a.len() == 0 {
        Seq::empty()
    } else {
        cross(a.drop_last(), b) + prefixed(a.last(), b)
    }
}

/// The cartesian product of a list of choice sequences, in odometer order:
/// the last sequence's choice advances fastest, the first slowest.
pub open spec fn cart(l: Seq<Seq<Seq<char>>>) -> Seq<Seq<char>>
    decreases l.len(),
{
    if l.len() == 0 {
        seq![Seq::<char>::empty()]
    } else {
        cross(cart(l.drop_last()), l.last())
    }
}

/// The choice sequences of a base expression's sub-expressions.
pub open spec fn sub_strings_of(b: Seq<SubExprModel>) -> Seq<Seq<Seq<char>>> {
    b.map_values(|m: SubExprModel| sub_strings(m))
}

/// The strings a base expression expands to: the cartesian product of its
/// sub-expressions' choices; a base expression with no sub-expressions
/// produces nothing at all.
pub open spec fn base_strings(b: Seq<SubExprModel>) -> Seq<Seq<char>> {
    if b.len() == 0 {
        Seq::empty()
    } else {
        cart(sub_strings_of(b))
    }
}

/// Valid odometer counters for the choice lists `l`.
pub open spec fn wf_counters(l: Seq<Seq<Seq<char>>>, c: Seq<int>) -> bool {
    c.len() == l.len() && forall|k: int| 0 <= k < c.len() ==> 0 <= #[trigger] c[k] < l[k].len()
}

/// All counters at zero: the odometer's starting position.
pub open spec fn zero_counters(n: nat) -> Seq<int> {
    Seq::new(n, |k: int| 0)
}

/// The names still to come when the odometer stands at `c`: the rest of the
/// last list's block under the current front combination, then every later
/// combination.
pub open spec fn cart_from(l: Seq<Seq<Seq<char>>>, c: Seq<int>) -> Seq<Seq<char>>
    decreases l.len(),
{
    if l.len() == 0 {
        seq![Seq::<char>::empty()]
    } else {
        let fr = cart_from(l.drop_last(), c.drop_last());
        prefixed(fr.first(), l.last().skip(c.last())) + cross(fr.drop_first(), l.last())
    }
}

/// The name the odometer currently points at: the chosen string of each
/// list, concatenated in order.
pub open spec fn name_at(l: Seq<Seq<Seq<char>>>, c: Seq<int>) -> Seq<char>
    decreases l.len(),
{
    if l.len() == 0 {
        Seq::empty()
    } else {
        name_at(l.drop_last(), c.drop_last()) + l.last()[c.last()]
    }
}

/// The odometer position after one step: the last counter advances,
/// carrying leftward; `None` when every combination has been produced.
pub open spec fn advance(l: Seq<Seq<Seq<char>>>, c: Seq<int>) -> Option<Seq<int>>
    decreases l.len(),
{
    if l.len() == 0 || c.len() == 0 {
        None
    } else if c.last() + 1 < l.last().len() {
        Some(c.drop_last().push(c.last() + 1))
    } else {
        match advance(l.drop_last(), c.drop_last()) {
            None => None,
            Some(c2) => Some(c2.push(0)),
        }
    }
}

proof fn lemma_wf_front(l: Seq<Seq<Seq<char>>>, c: Seq<int>)
    requires
        l.len() > 0,
        wf_counters(l, c),
    ensures
        wf_counters(l.drop_last(), c.drop_last()),
{
    assert forall|k: int| 0 <= k < c.drop_last().len() implies 0 <= #[trigger] c.drop_last()[k]
        < l.drop_last()[k].len() by {
        assert(c.drop_last()[k] == c[k]);
        assert(l.drop_last()[k] == l[k]);
    }
}

proof fn lemma_cross_front(a: Seq<Seq<char>>, b: Seq<Seq<char>>)
    requires
        a.len() > 0,
    ensures
        cross(a, b) == prefixed(a.first(), b) + cross(a.drop_first(), b),
    decreases a.len(),
{
    if a.len() == 1 {
        assert(a.drop_last() =~= Seq::<Seq<char>>::empty());
        assert(a.drop_first() =~= Seq::<Seq<char>>::empty());
        assert(a.last() == a.first());
        assert(cross(a, b) =~= prefixed(a.first(), b) + cross(a.drop_first(), b));
    } else {
        lemma_cross_front(a.drop_last(), b);
        assert(a.drop_last().first() == a.first());
        assert(a.drop_last().drop_first() =~= a.drop_first().drop_last());
        assert(a.drop_first().last() == a.last());
        assert(cross(a.drop_first(), b) == cross(a.drop_first().drop_last(), b) + prefixed(
            a.drop_first().last(),
            b,
        ));
        assert(cross(a, b) =~= prefixed(a.first(), b) + cross(a.drop_first(), b));
    }
}

proof fn lemma_cart_pos(l: Seq<Seq<Seq<char>>>)
    requires
        forall|k: int| 0 <= k < l.len() ==> (#[trigger] l[k]).len() > 0,
    ensures
        cart(l).len() >= 1,
    decreases l.len(),
{
    if l.len() > 0 {
        assert forall|k: int| 0 <= k < l.drop_last().len() implies (#[trigger] l.drop_last()[
            k
        ]).len() > 0 by {
            assert(l.drop_last()[k] == l[k]);
        }
        lemma_cart_pos(l.drop_last());
        lemma_cross_len(cart(l.drop_last()), l.last());
        assert(l[l.len() - 1].len() > 0);
        assert(cart(l.drop_last()).len() * l.last().len() >= 1) by (nonlinear_arith)
            requires
                cart(l.drop_last()).len() >= 1,
                l.last().len() >= 1,
        ;
    }
}

proof fn lemma_cart_from_len(l: Seq<Seq<Seq<char>>>, c: Seq<int>)
    requires
        wf_counters(l, c),
    ensures
        cart_from(l, c).len() >= 1,
    decreases l.len(),
{
    if l.len() > 0 {
        lemma_wf_front(l, c);
        lemma_cart_from_len(l.drop_last(), c.drop_last());
        assert(0 <= c[c.len() - 1] < l[l.len() - 1].len());
        assert(l.last().skip(c.last()).len() >= 1);
    }
}

proof fn lemma_cart_from_zero(l: Seq<Seq<Seq<char>>>)
    requires
        forall|k: int| 0 <= k < l.len() ==> (#[trigger] l[k]).len() > 0,
    ensures
        cart_from(l, zero_counters(l.len())) == cart(l),
    decreases l.len(),
{
    if l.len() == 0 {
    } else {
        let front = l.drop_last();
        assert forall|k: int| 0 <= k < front.len() implies (#[trigger] front[k]).len() > 0 by {
            assert(front[k] == l[k]);
        }
        lemma_cart_from_zero(front);
        lemma_cart_pos(front);
        let z = zero_counters(l.len());
        assert(z.drop_last() =~= zero_counters(front.len()));
        assert(z.last() == 0);
        lemma_cross_front(cart(front), l.last());
        assert(l.last().skip(0) =~= l.last());
        assert(cart_from(l, z) == prefixed(cart(front).first(), l.last().skip(0)) + cross(
            cart(front).drop_first(),
            l.last(),
        ));
        assert(cart_from(l, z) =~= cart(l));
    }
}

proof fn lemma_cart_from_first(l: Seq<Seq<Seq<char>>>, c: Seq<int>)
    requires
        wf_counters(l, c),
    ensures
        cart_from(l, c).first() == name_at(l, c),
    decreases l.len(),
{
    if l.len() == 0 {
    } else {
        lemma_wf_front(l, c);
        lemma_cart_from_len(l.drop_last(), c.drop_last());
        lemma_cart_from_first(l.drop_last(), c.drop_last());
        let fr = cart_from(l.drop_last(), c.drop_last());
        assert(0 <= c[c.len() - 1] < l[l.len() - 1].len());
        assert(l.last().skip(c.last())[0] == l.last()[c.last()]);
        assert(prefixed(fr.first(), l.last().skip(c.last()))[0] == fr.first() + l.last()[c.last()]);
    }
}

proof fn lemma_cart_from_step(l: Seq<Seq<Seq<char>>>, c: Seq<int>)
    requires
        wf_counters(l, c),
    ensures
        advance(l, c) is None ==> cart_from(l, c).drop_first() == Seq::<Seq<char>>::empty(),
        advance(l, c) matches Some(c2) ==> wf_counters(l, c2) && cart_from(l, c).drop_first()
            == cart_from(l, c2),
    decreases l.len(),
{
    if l.len() == 0 {
        assert(cart_from(l, c).drop_first() =~= Seq::<Seq<char>>::empty());
    } else {
        let front = l.drop_last();
        let cfront = c.drop_last();
        let last = l.last();
        let cl = c.last();
        lemma_wf_front(l, c);
        lemma_cart_from_len(front, cfront);
        let fr = cart_from(front, cfront);
        assert(0 <= c[c.len() - 1] < l[l.len() - 1].len());
        let blk = prefixed(fr.first(), last.skip(cl));
        assert(blk.len() == last.len() - cl);
        assert(cart_from(l, c) == blk + cross(fr.drop_first(), last));
        assert(cart_from(l, c).drop_first() =~= blk.drop_first() + cross(fr.drop_first(), last));
        assert(blk.drop_first() =~= prefixed(fr.first(), last.skip(cl).drop_first()));
        assert(last.skip(cl).drop_first() =~= last.skip(cl + 1));
        assert(blk.drop_first() =~= prefixed(fr.first(), last.skip(cl + 1)));
        if cl + 1 < last.len() {
            let c2 = cfront.push(cl + 1);
            assert(advance(l, c) == Some(c2));
            assert(c2.drop_last() =~= cfront);
            assert(c2.last() == cl + 1);
            assert forall|k: int| 0 <= k < c2.len() implies 0 <= #[trigger] c2[k] < l[k].len() by {
                if k < c2.len() - 1 {
                    assert(c2[k] == c[k]);
                    assert(0 <= c[k] < l[k].len());
                }
            }
            assert(cart_from(l, c2) == prefixed(cart_from(front, c2.drop_last()).first(), last.skip(
                c2.last(),
            )) + cross(cart_from(front, c2.drop_last()).drop_first(), last));
            assert(cart_from(l, c).drop_first() =~= cart_from(l, c2));
        } else {
            assert(last.skip(cl + 1).len() == 0);
            assert(prefixed(fr.first(), last.skip(cl + 1)) =~= Seq::<Seq<char>>::empty());
            assert(cart_from(l, c).drop_first() =~= cross(fr.drop_first(), last));
            lemma_cart_from_step(front, cfront);
            if let Some(c2f) = advance(front, cfront) {
                let c2 = c2f.push(0);
                assert(advance(l, c) == Some(c2));
                assert(c2.drop_last() =~= c2f);
                assert(c2.last() == 0);
                assert forall|k: int| 0 <= k < c2.len() implies 0 <= #[trigger] c2[k] < l[
                    k
                ].len() by {
                    if k < c2.len() - 1 {
                        assert(c2[k] == c2f[k]);
                        assert(front[k] == l[k]);
                        assert(0 <= c2f[k] < front[k].len());
                    }
                }
                assert(fr.drop_first() == cart_from(front, c2f));
                lemma_cart_from_len(front, c2f);
                lemma_cross_front(cart_from(front, c2f), last);
                assert(last.skip(0) =~= last);
                assert(cart_from(l, c2) == prefixed(cart_from(front, c2f).first(), last.skip(0))
                    + cross(cart_from(front, c2f).drop_first(), last));
                assert(cart_from(l, c).drop_first() =~= cart_from(l, c2));
            } else {
                assert(fr.drop_first() == Seq::<Seq<char>>::empty());
                assert(cross(fr.drop_first(), last) =~= Seq::<Seq<char>>::empty());
                assert(advance(l, c) is None);
            }
        }
    }
}

/// Tracks the whole-pattern advance as a backward carry scan: the odometer
/// step over the first `k` coordinates, with zeros appended for the rest.
spec fn advance_tail(l: Seq<Seq<Seq<char>>>, c: Seq<int>, k: int) -> Option<Seq<int>> {
    match advance(l.subrange(0, k), c.subrange(0, k)) {
        None => None,
        Some(p) => Some(p + zero_counters((c.len() - k) as nat)),
    }
}


/// The models of a list of sub-expressions.
pub open spec fn subs_view(v: Seq<NodeaggSubExpr>) -> Seq<SubExprModel> {
    v.map_values(|e: NodeaggSubExpr| e@)
}

/// The models of a list of base expressions.
pub open spec fn bases_view(v: Seq<NodeaggBaseExpr>) -> Seq<Seq<SubExprModel>> {
    v.map_values(|b: NodeaggBaseExpr| b@)
}

impl View for NodeaggBaseExpr {
    type V = Seq<SubExprModel>;

    closed spec fn view(&self) -> Seq<SubExprModel> {
        subs_view(self.0@)
    }
}

impl NodeaggBaseExpr {
    /// Wraps a list of sub-expressions as a base expression.
    pub fn new(subs: Vec<NodeaggSubExpr>) -> (r: Self)
        ensures
            r@ == subs@.map_values(|e: NodeaggSubExpr| e@),
    {
        NodeaggBaseExpr(subs)
    }

    /// Starts a lazy pass over the base expression's cartesian product,
    /// the last sub-expression's choice cycling fastest; the product itself
    /// is never materialized.
    pub fn iter(&self) -> (r: BaseCursor)
        ensures
            r.remaining() == base_strings(self@),
    {
        BaseCursor::new(self)
    }
}

/// Streams a base expression's cartesian product: each sub-expression's
/// choices are collected once, and an odometer then computes one combination
/// per `next` call, the last position cycling fastest, so memory grows with
/// the choices, never with the product.
pub struct BaseCursor {
    choices: Vec<Vec<String>>,
    counters: Vec<usize>,
    live: bool,
}

impl BaseCursor {
    spec fn choice_views(&self) -> Seq<Seq<Seq<char>>> {
        self.choices@.map_values(|v: Vec<String>| str_views(v@))
    }

    spec fn counter_views(&self) -> Seq<int> {
        self.counters@.map_values(|u: usize| u as int)
    }

    spec fn wf(&self) -> bool {
        wf_counters(self.choice_views(), self.counter_views())
    }

    fn check(&self) -> (b: bool)
        ensures
            b == self.wf(),
    {
        if self.counters.len() != self.choices.len() {
            return false;
        }
        let mut k: usize = 0;
        while k < self.counters.len()
            invariant
                0 <= k <= self.counters@.len(),
                self.counters@.len() == self.choices@.len(),
                forall|m: int|
                    0 <= m < k ==> 0 <= #[trigger] self.counter_views()[m]
                        < self.choice_views()[m].len(),
            decreases self.counters@.len() - k,
        {
            if self.counters[k] >= self.choices[k].len() {
                proof {
                    assert(self.counter_views()[k as int] >= self.choice_views()[k as int].len());
                }
                return false;
            }
            k = k + 1;
        }
        true
    }

    /// Collects each sub-expression's choices and sets the odometer to the
    /// first combination; a base expression with no sub-expressions, or one
    /// whose product is empty, produces nothing.
    pub fn new(b: &NodeaggBaseExpr) -> (r: BaseCursor)
        ensures
            r.remaining() == base_strings(b@),
    {
        let mut choices: Vec<Vec<String>> = Vec::new();
        let mut all_nonempty = true;
        let mut i: usize = 0;
        while i < b.0.len()
            invariant
                0 <= i <= b.0@.len(),
                b@.len() == b.0@.len(),
                choices@.len() == i,
                choices@.map_values(|v: Vec<String>| str_views(v@)) == sub_strings_of(
                    b@.subrange(0, i as int),
                ),
                all_nonempty ==> forall|m: int|
                    0 <= m < i ==> (#[trigger] choices@[m])@.len() > 0,
                !all_nonempty ==> exists|m: int| 0 <= m < i && (#[trigger] choices@[m])@.len()
                    == 0,
            decreases b.0@.len() - i,
        {
            let mut cur = b.0[i].iter();
            let mut v: Vec<String> = Vec::new();
            loop
                invariant
                    i < b.0@.len(),
                    str_views(v@) + cur.remaining() == sub_strings(b.0@[i as int]@),
                ensures
                    str_views(v@) == sub_strings(b.0@[i as int]@),
                decreases cur.remaining().len(),
            {
                let ghost prev_v = v@;
                let ghost prev_rem = cur.remaining();
                match cur.next() {
                    None => {
                        proof {
                            assert(str_views(v@) + cur.remaining() =~= str_views(v@));
                        }
                        break;
                    },
                    Some(sv) => {
                        let ghost svv = sv@;
                        v.push(sv);
                        proof {
                            lemma_str_views_push(prev_v, v@[v@.len() - 1]);
                            assert(prev_rem =~= seq![svv] + cur.remaining());
                            assert(str_views(prev_v).push(svv) + cur.remaining() =~= str_views(
                                prev_v,
                            ) + prev_rem);
                        }
                    },
                }
            }
            let nonempty = v.len() > 0;
            let ghost prev_choices = choices@;
            let ghost prev_map = choices@.map_values(|v2: Vec<String>| str_views(v2@));
            let ghost vv = v@;
            choices.push(v);
            if !nonempty {
                all_nonempty = false;
            }
            i = i + 1;
            proof {
                assert(b@[i - 1] == b.0@[i - 1]@);
                assert(choices@.map_values(|v2: Vec<String>| str_views(v2@)) =~= prev_map.push(
                    str_views(vv),
                ));
                assert(b@.subrange(0, i as int).drop_last() =~= b@.subrange(0, i - 1));
                assert(sub_strings_of(b@.subrange(0, i as int)) =~= sub_strings_of(b@.subrange(
                    0,
                    i - 1,
                )).push(sub_strings(b@[i - 1])));
                assert(choices@.map_values(|v2: Vec<String>| str_views(v2@)) =~= sub_strings_of(
                    b@.subrange(0, i as int),
                ));
                if !all_nonempty {
                    if !nonempty {
                        assert(choices@[i - 1]@.len() == 0);
                    } else {
                        let m0 = choose|m: int|
                            0 <= m < i - 1 && (#[trigger] prev_choices[m])@.len() == 0;
                        assert(choices@[m0] == prev_choices[m0]);
                        assert(choices@[m0]@.len() == 0);
                    }
                }
            }
        }
        let n = choices.len();
        let mut counters: Vec<usize> = Vec::new();
        let mut k: usize = 0;
        while k < n
            invariant
                0 <= k <= n,
                counters@.len() == k,
                forall|m: int| 0 <= m < k ==> #[trigger] counters@[m] == 0,
            decreases n - k,
        {
            counters.push(0);
            k = k + 1;
        }
        let live = all_nonempty && n > 0;
        let ghost ch = choices@;
        let r = BaseCursor { choices, counters, live };
        proof {
            assert(b@.subrange(0, b@.len() as int) =~= b@);
            assert(sub_strings_of(b@.subrange(0, b@.len() as int)) == sub_strings_of(b@));
            let lv = r.choice_views();
            assert(lv == sub_strings_of(b@));
            if !live {
                if n == 0 {
                    assert(b@.len() == 0);
                    assert(base_strings(b@) == Seq::<Seq<char>>::empty());
                } else {
                    let m = choose|m: int| 0 <= m < ch.len() && (#[trigger] ch[m])@.len() == 0;
                    assert(lv[m].len() == 0);
                    assert(sub_strings(b@[m]).len() == 0);
                    lemma_product_zero(b@, m);
                    lemma_cart_len(b@);
                    assert(cart(sub_strings_of(b@)).len() == 0);
                    assert(base_strings(b@) =~= Seq::<Seq<char>>::empty());
                }
            } else {
                assert(r.counter_views() =~= zero_counters(lv.len()));
                assert forall|k2: int| 0 <= k2 < lv.len() implies (#[trigger] lv[k2]).len()
                    > 0 by {
                    assert(lv[k2].len() == ch[k2]@.len());
                }
                assert(wf_counters(lv, r.counter_views()));
                lemma_cart_from_zero(lv);
                assert(cart_from(lv, r.counter_views()) == cart(lv));
                assert(b@.len() > 0);
                assert(r.remaining() == base_strings(b@));
            }
        }
        r
    }
}

impl Producer for BaseCursor {
    type Item = String;

    closed spec fn remaining(&self) -> Seq<Seq<char>> {
        if self.live && self.wf() {
            cart_from(self.choice_views(), self.counter_views())
        } else {
            Seq::empty()
        }
    }

    fn next(&mut self) -> (r: Option<String>) {
        if !self.live {
            return None;
        }
        if !self.check() {
            self.live = false;
            return None;
        }
        let ghost lv = self.choice_views();
        let ghost cv = self.counter_views();
        proof {
            lemma_cart_from_len(lv, cv);
            lemma_cart_from_first(lv, cv);
        }
        let mut nm = String::new();
        let mut k: usize = 0;
        while k < self.choices.len()
            invariant
                0 <= k <= self.choices@.len(),
                self.wf(),
                self.live,
                lv == self.choice_views(),
                cv == self.counter_views(),
                nm@ == name_at(lv.subrange(0, k as int), cv.subrange(0, k as int)),
            decreases self.choices@.len() - k,
        {
            proof {
                assert(0 <= cv[k as int] < lv[k as int].len());
            }
            let idx = self.counters[k];
            nm.append(self.choices[k][idx].as_str());
            k = k + 1;
            proof {
                let lp = lv.subrange(0, k as int);
                let cp = cv.subrange(0, k as int);
                assert(lp.drop_last() =~= lv.subrange(0, k - 1));
                assert(cp.drop_last() =~= cv.subrange(0, k - 1));
                assert(lp.last() == lv[k - 1]);
                assert(cp.last() == cv[k - 1]);
                assert(lv[k - 1][cv[k - 1]] == self.choices@[k - 1]@[idx as int]@);
                assert(nm@ == name_at(lp, cp));
            }
        }
        proof {
            assert(lv.subrange(0, lv.len() as int) =~= lv);
            assert(cv.subrange(0, cv.len() as int) =~= cv);
            assert(nm@ == name_at(lv, cv));
        }
        let n = self.counters.len();
        let mut k2: usize = n;
        proof {
            assert(lv.subrange(0, n as int) =~= lv);
            assert(cv.subrange(0, n as int) =~= cv);
            if let Some(p) = advance(lv, cv) {
                assert(p + zero_counters(0) =~= p);
            }
            assert(advance(lv, cv) == advance_tail(lv, cv, n as int));
        }
        loop
            invariant_except_break
                0 <= k2 <= n,
                n == self.counters@.len(),
                n == self.choices@.len(),
                self.live,
                lv == self.choice_views(),
                wf_counters(lv, cv),
                self.counter_views() == cv.subrange(0, k2 as int) + zero_counters((n - k2) as nat),
                advance(lv, cv) == advance_tail(lv, cv, k2 as int),
            ensures
                lv == self.choice_views(),
                self.live ==> (advance(lv, cv) matches Some(c2) && self.counter_views() == c2),
                !self.live ==> advance(lv, cv) is None,
            decreases k2,
        {
            if k2 == 0 {
                proof {
                    assert(cv.subrange(0, 0).len() == 0);
                    assert(advance(lv.subrange(0, 0), cv.subrange(0, 0)) is None);
                }
                self.live = false;
                break;
            }
            k2 = k2 - 1;
            let ck = self.counters[k2];
            proof {
                assert(self.counter_views()[k2 as int] == (cv.subrange(0, k2 + 1)
                    + zero_counters((n - k2 - 1) as nat))[k2 as int]);
                assert(cv.subrange(0, k2 + 1)[k2 as int] == cv[k2 as int]);
                assert(ck as int == self.counter_views()[k2 as int]);
                assert(0 <= cv[k2 as int] < lv[k2 as int].len());
                assert(lv[k2 as int] == str_views(self.choices@[k2 as int]@));
                assert(lv[k2 as int].len() == self.choices@[k2 as int]@.len());
            }
            let clen = self.choices[k2].len();
            if ck + 1 < clen {
                let ghost prev_counters = self.counters@;
                let ghost prev_views = self.counter_views();
                let removed = self.counters.remove(k2);
                self.counters.insert(k2, ck + 1);
                proof {
                    assert(self.counters@ =~= prev_counters.update(k2 as int, (ck + 1) as usize));
                    assert(self.counter_views() =~= prev_views.update(k2 as int, ck + 1 as int));
                    assert(self.counter_views() =~= cv.subrange(0, k2 as int).push(
                        ck + 1,
                    ) + zero_counters((n - k2 - 1) as nat));
                    let lp = lv.subrange(0, k2 + 1);
                    let cp = cv.subrange(0, k2 + 1);
                    assert(lp.last() == lv[k2 as int]);
                    assert(cp.last() == cv[k2 as int]);
                    assert(cp.drop_last() =~= cv.subrange(0, k2 as int));
                    assert(advance(lp, cp) == Some(cv.subrange(0, k2 as int).push(ck + 1)));
                    if let Some(p) = advance(lp, cp) {
                        assert(p + zero_counters((n - k2 - 1) as nat) =~= self.counter_views());
                    }
                    assert(advance_tail(lv, cv, k2 + 1) == Some(self.counter_views()));
                }
                break;
            } else {
                let ghost prev_counters = self.counters@;
                let ghost prev_views = self.counter_views();
                let removed = self.counters.remove(k2);
                self.counters.insert(k2, 0);
                proof {
                    assert(self.counters@ =~= prev_counters.update(k2 as int, 0));
                    assert(self.counter_views() =~= prev_views.update(k2 as int, 0));
                    assert(self.counter_views() =~= cv.subrange(0, k2 as int) + zero_counters(
                        (n - k2) as nat,
                    ));
                    let lp = lv.subrange(0, k2 + 1);
                    let cp = cv.subrange(0, k2 + 1);
                    assert(lp.last() == lv[k2 as int]);
                    assert(cp.last() == cv[k2 as int]);
                    assert(lp.drop_last() =~= lv.subrange(0, k2 as int));
                    assert(cp.drop_last() =~= cv.subrange(0, k2 as int));
                    assert(!(cp.last() + 1 < lp.last().len()));
                    if let Some(p) = advance(lv.subrange(0, k2 as int), cv.subrange(0, k2 as int)) {
                        assert(p.push(0) + zero_counters((n - k2 - 1) as nat) =~= p + zero_counters(
                            (n - k2) as nat,
                        ));
                    }
                    assert(advance_tail(lv, cv, k2 + 1) == advance_tail(lv, cv, k2 as int));
                }
            }
        }
        proof {
            lemma_cart_from_step(lv, cv);
            assert(old(self).remaining().first() == nm@);
            assert(final(self).remaining() == old(self).remaining().drop_first());
        }
        Some(nm)
    }
}

proof fn lemma_product_zero(b: Seq<SubExprModel>, m: int)
    requires
        0 <= m < b.len(),
        sub_strings(b[m]).len() == 0,
    ensures
        choice_counts_product(b) == 0,
    decreases b.len(),
{
    if m == b.len() - 1 {
    } else {
        assert(b.drop_last()[m] == b[m]);
        lemma_product_zero(b.drop_last(), m);
    }
}

/// The numeric value of a digit character.
pub open spec fn digit_val(c: char) -> nat {
    ((c as u32) - 48) as nat
}

/// The value of a digit string, most significant digit first.
pub open spec fn digits_val(s: Seq<char>) -> nat
    decreases s.len(),
{
    if s.len() == 0 {
        0
    } else {
        digits_val(s.drop_last()) * 10 + digit_val(s.last())
    }
}

pub open spec fn spec_max(a: nat, b: nat) -> nat {
    if a >= b {
        a
    } else {
        b
    }
}

proof fn lemma_digits_val_mono(s: Seq<char>, i: int, k: int, j: int)
    requires
        0 <= i <= k <= j <= s.len(),
    ensures
        digits_val(s.subrange(i, k)) <= digits_val(s.subrange(i, j)),
    decreases j - k,
{
    if k < j {
        assert(s.subrange(i, k + 1).drop_last() =~= s.subrange(i, k));
        assert(digits_val(s.subrange(i, k)) <= digits_val(s.subrange(i, k + 1)));
        lemma_digits_val_mono(s, i, k + 1, j);
    }
}

/// A number or range at position `i`: a digit run, optionally `-` and a
/// second digit run; fails when no digit starts here or a value does not fit
/// in 64 bits.  The element's width is the digit count of the literal (the
/// wider one, for a range).
pub open spec fn elem_at(s: Seq<char>, i: int) -> Option<(NodeaggSubArrayElement, int)> {
    let d1 = digit_run(s, i);
    if d1 == 0 {
        None
    } else {
        let j = i + d1;
        let v1 = digits_val(s.subrange(i, j));
        if j < s.len() && s[j] == '-' && digit_run(s, j + 1) > 0 {
            let d2 = digit_run(s, j + 1);
            let k = j + 1 + d2;
            let v2 = digits_val(s.subrange(j + 1, k));
            if v1 <= u64::MAX && v2 <= u64::MAX {
                Some(
                    (
                        NodeaggSubArrayElement {
                            width: spec_max(d1, d2) as usize,
                            inner: NodeaggSubArrayElementKind::Range(
                                NodeaggSubRange { start: v1 as u64, stop: v2 as u64 },
                            ),
                        },
                        k,
                    ),
                )
            } else {
                None
            }
        } else {
            if v1 <= u64::MAX {
                Some(
                    (
                        NodeaggSubArrayElement {
                            width: d1 as usize,
                            inner: NodeaggSubArrayElementKind::Number(
                                NodeaggSubNumber { value: v1 as u64 },
                            ),
                        },
                        j,
                    ),
                )
            } else {
                None
            }
        }
    }
}

/// One or more elements separated by commas, as inside a bracket pair.
pub open spec fn comma_list_at(s: Seq<char>, i: int) -> Option<
    (Seq<NodeaggSubArrayElement>, int),
>
    decreases s.len() - i,
{
    match elem_at(s, i) {
        None => None,
        Some((e, j)) => if 0 <= j < s.len() && s[j] == ',' {
            match comma_list_at(s, j + 1) {
                None => None,
                Some((rest, k)) => Some((seq![e] + rest, k)),
            }
        } else {
            Some((seq![e], j))
        },
    }
}

proof fn lemma_comma_list_at_le(s: Seq<char>, i: int)
    requires
        0 <= i <= s.len(),
    ensures
        comma_list_at(s, i) matches Some((es, j)) ==> i < j <= s.len(),
    decreases s.len() - i,
{
    let d1 = digit_run(s, i);
    if d1 > 0 {
        lemma_digit_run_le(s, i);
        let j = i + d1;
        if j < s.len() && s[j] == '-' && digit_run(s, j + 1) > 0 {
            lemma_digit_run_le(s, j + 1);
        }
        if let Some((e, je)) = elem_at(s, i) {
            if 0 <= je < s.len() && s[je] == ',' {
                lemma_comma_list_at_le(s, je + 1);
            }
        }
    }
}

/// A bracketed array group: `[`, a comma list, `]`.
pub open spec fn array_at(s: Seq<char>, i: int) -> Option<(Seq<NodeaggSubArrayElement>, int)> {
    if 0 <= i < s.len() && s[i] == '[' {
        match comma_list_at(s, i + 1) {
            None => None,
            Some((es, j)) => if 0 <= j < s.len() && s[j] == ']' {
                Some((es, j + 1))
            } else {
                None
            },
        }
    } else {
        None
    }
}

/// A single sub-expression at `i`: a word, or an array group.
pub open spec fn sub_expr_at(s: Seq<char>, i: int) -> Option<(SubExprModel, int)> {
    if word_run(s, i) > 0 {
        Some((SubExprModel::Word(s.subrange(i, i + word_run(s, i))), i + word_run(s, i)))
    } else if 0 <= i < s.len() && s[i] == '[' {
        match array_at(s, i) {
            None => None,
            Some((es, j)) => Some((SubExprModel::Arr(es), j)),
        }
    } else {
        None
    }
}

/// A base expression at `i`: as many sub-expressions as will fit, then
/// trailing horizontal whitespace.  A malformed array group is a failure; a
/// position where no sub-expression starts yields the empty base expression.
pub open spec fn base_at(s: Seq<char>, i: int) -> Option<(Seq<SubExprModel>, int)>
    decreases s.len() - i,
    via base_at_decreases
{
    if word_run(s, i) > 0 {
        let j = i + word_run(s, i);
        match base_at(s, j) {
            None => None,
            Some((rest, k)) => Some((seq![SubExprModel::Word(s.subrange(i, j))] + rest, k)),
        }
    } else if 0 <= i < s.len() && s[i] == '[' {
        match array_at(s, i) {
            None => None,
            Some((es, j)) => match base_at(s, j) {
                None => None,
                Some((rest, k)) => Some((seq![SubExprModel::Arr(es)] + rest, k)),
            },
        }
    } else {
        Some((Seq::empty(), i + tabspace_run(s, i)))
    }
}

#[via_fn]
proof fn base_at_decreases(s: Seq<char>, i: int) {
    if word_run(s, i) > 0 {
        lemma_word_run_le(s, i);
    } else if 0 <= i < s.len() && s[i] == '[' {
        lemma_comma_list_at_le(s, i + 1);
    }
}

proof fn lemma_base_at_le(s: Seq<char>, i: int)
    requires
        0 <= i <= s.len(),
    ensures
        base_at(s, i) matches Some((b, j)) ==> i <= j <= s.len(),
    decreases s.len() - i,
{
    if word_run(s, i) > 0 {
        lemma_word_run_le(s, i);
        lemma_base_at_le(s, i + word_run(s, i));
    } else if 0 <= i < s.len() && s[i] == '[' {
        lemma_comma_list_at_le(s, i + 1);
        if let Some((es, j)) = array_at(s, i) {
            lemma_base_at_le(s, j);
        }
    } else {
        lemma_tabspace_run_le(s, i);
    }
}

/// The base expressions of a whole pattern: base expressions, each followed
/// by an optional comment, separated by `,` or a newline with horizontal
/// whitespace and an optional comment after each separator.
pub open spec fn bases_at(s: Seq<char>, i: int) -> Option<(Seq<Seq<SubExprModel>>, int)>
    decreases s.len() - i,
    via bases_at_decreases
{
    match base_at(s, i) {
        None => None,
        Some((b, j)) => {
            let j2 = comment_end(s, j);
            if 0 <= j2 < s.len() && (s[j2] == ',' || s[j2] == '\n') {
                let j3 = comment_end(s, j2 + 1 + tabspace_run(s, j2 + 1));
                match bases_at(s, j3) {
                    None => None,
                    Some((rest, k)) => Some((seq![b] + rest, k)),
                }
            } else {
                Some((seq![b], j2))
            }
        },
    }
}

#[via_fn]
proof fn bases_at_decreases(s: Seq<char>, i: int) {
    if 0 <= i <= s.len() {
        lemma_base_at_le(s, i);
        if let Some((b, j)) = base_at(s, i) {
            lemma_comment_end_le(s, j);
            let j2 = comment_end(s, j);
            if 0 <= j2 < s.len() && (s[j2] == ',' || s[j2] == '\n') {
                lemma_tabspace_run_le(s, j2 + 1);
                lemma_comment_end_le(s, j2 + 1 + tabspace_run(s, j2 + 1));
            }
        }
    }
}

/// The whole grammar: leading whitespace, the base expressions, then
/// trailing horizontal whitespace and an optional comment; anything left
/// over afterwards is a failure.
pub open spec fn parse_spec(s: Seq<char>) -> Option<Seq<Seq<SubExprModel>>> {
    let i0 = space_run(s, 0);
    match bases_at(s, i0 as int) {
        None => None,
        Some((bs, j)) => {
            let k = comment_end(s, j + tabspace_run(s, j));
            if k == s.len() {
                Some(bs)
            } else {
                None
            }
        },
    }
}

proof fn lemma_digit_run_digits(s: Seq<char>, i: int)
    requires
        0 <= i <= s.len(),
    ensures
        forall|k: int| i <= k < i + digit_run(s, i) ==> is_digit(s[k]),
    decreases s.len() - i,
{
    if i < s.len() && is_digit(s[i]) {
        lemma_digit_run_digits(s, i + 1);
    }
}

fn parse_number_value(s: &str, i: usize, j: usize) -> (r: Option<u64>)
    requires
        i <= j <= s@.len(),
        forall|k: int| i <= k < j ==> is_digit(s@[k]),
    ensures
        r matches Some(v) ==> v as nat == digits_val(s@.subrange(i as int, j as int)),
        r is None <==> digits_val(s@.subrange(i as int, j as int)) > u64::MAX,
{
    let mut v: u64 = 0;
    let mut k: usize = i;
    proof {
        assert(s@.subrange(i as int, i as int) =~= Seq::<char>::empty());
    }
    while k < j
        invariant
            i <= k <= j <= s@.len(),
            forall|m: int| i <= m < j ==> is_digit(s@[m]),
            v as nat == digits_val(s@.subrange(i as int, k as int)),
        decreases j - k,
    {
        let c = s.get_char(k);
        let d: u64 = (c as u32 - 48) as u64;
        proof {
            assert(is_digit(s@[k as int]));
            assert(d as nat == digit_val(s@[k as int]));
            assert(s@.subrange(i as int, k + 1).drop_last() =~= s@.subrange(i as int, k as int));
            assert(s@.subrange(i as int, k + 1).last() == s@[k as int]);
        }
        match v.checked_mul(10) {
            None => {
                proof {
                    assert(digits_val(s@.subrange(i as int, k + 1)) > u64::MAX);
                    lemma_digits_val_mono(s@, i as int, k + 1, j as int);
                }
                return None;
            },
            Some(p) => {
                match p.checked_add(d) {
                    None => {
                        proof {
                            assert(digits_val(s@.subrange(i as int, k + 1)) > u64::MAX);
                            lemma_digits_val_mono(s@, i as int, k + 1, j as int);
                        }
                        return None;
                    },
                    Some(nv) => {
                        v = nv;
                        k = k + 1;
                    },
                }
            },
        }
    }
    Some(v)
}

fn parse_elem(s: &str, i: usize) -> (r: Result<(NodeaggSubArrayElement, usize), (usize, &'static str)>)
    requires
        i <= s@.len(),
    ensures
        r is Err <==> elem_at(s@, i as int) is None,
        r matches Ok((e, j)) ==> elem_at(s@, i as int) == Some((e, j as int)) && i < j
            <= s@.len(),
        r matches Err(f) ==> f.0 <= s@.len() && f.1@.len() > 0,
{
    let n = s.unicode_len();
    let j = scan_digits(s, i);
    if j == i {
        proof {
            reveal_strlit("array group needs a number or range");
        }
        return Err((i, "array group needs a number or range"));
    }
    proof {
        lemma_digit_run_digits(s@, i as int);
    }
    if j < n && s.get_char(j) == '-' {
        let j2 = scan_digits(s, j + 1);
        if j2 > j + 1 {
            proof {
                lemma_digit_run_digits(s@, j + 1);
            }
            match parse_number_value(s, i, j) {
                None => {
                    proof {
                        reveal_strlit("number is too large");
                    }
                    return Err((i, "number is too large"));
                },
                Some(a) => {
                    match parse_number_value(s, j + 1, j2) {
                        None => {
                            proof {
                                reveal_strlit("number is too large");
                            }
                            return Err((j + 1, "number is too large"));
                        },
                        Some(b) => {
                            let d1 = j - i;
                            let d2 = j2 - j - 1;
                            let w = if d1 >= d2 {
                                d1
                            } else {
                                d2
                            };
                            return Ok(
                                (
                                    NodeaggSubArrayElement {
                                        width: w,
                                        inner: NodeaggSubArrayElementKind::Range(
                                            NodeaggSubRange { start: a, stop: b },
                                        ),
                                    },
                                    j2,
                                ),
                            );
                        },
                    }
                },
            }
        }
    }
    match parse_number_value(s, i, j) {
        None => {
            proof {
                reveal_strlit("number is too large");
            }
            Err((i, "number is too large"))
        },
        Some(a) => Ok(
            (
                NodeaggSubArrayElement {
                    width: j - i,
                    inner: NodeaggSubArrayElementKind::Number(NodeaggSubNumber { value: a }),
                },
                j,
            ),
        ),
    }
}

fn parse_comma_list(s: &str, i: usize) -> (r: Result<
    (Vec<NodeaggSubArrayElement>, usize),
    (usize, &'static str),
>)
    requires
        i <= s@.len(),
    ensures
        r is Err <==> comma_list_at(s@, i as int) is None,
        r matches Ok((es, j)) ==> comma_list_at(s@, i as int) == Some((es@, j as int)) && i < j
            <= s@.len(),
        r matches Err(f) ==> f.0 <= s@.len() && f.1@.len() > 0,
    decreases s@.len() - i,
{
    match parse_elem(s, i) {
        Err(p) => Err(p),
        Ok((e, j)) => {
            let ghost ev = e;
            let n = s.unicode_len();
            if j < n && s.get_char(j) == ',' {
                match parse_comma_list(s, j + 1) {
                    Err(p) => Err(p),
                    Ok((mut rest, k)) => {
                        let ghost old_rest = rest@;
                        rest.insert(0, e);
                        proof {
                            assert(rest@ =~= seq![ev] + old_rest);
                        }
                        Ok((rest, k))
                    },
                }
            } else {
                let mut es: Vec<NodeaggSubArrayElement> = Vec::new();
                es.push(e);
                proof {
                    assert(es@ =~= seq![ev]);
                }
                Ok((es, j))
            }
        },
    }
}

fn parse_array(s: &str, i: usize) -> (r: Result<
    (Vec<NodeaggSubArrayElement>, usize),
    (usize, &'static str),
>)
    requires
        i <= s@.len(),
    ensures
        r is Err <==> array_at(s@, i as int) is None,
        r matches Ok((es, j)) ==> array_at(s@, i as int) == Some((es@, j as int)) && i < j
            <= s@.len(),
        r matches Err(f) ==> f.0 <= s@.len() && f.1@.len() > 0,
{
    let n = s.unicode_len();
    if i < n && s.get_char(i) == '[' {
        match parse_comma_list(s, i + 1) {
            Err(p) => Err(p),
            Ok((es, j)) => {
                if j < n && s.get_char(j) == ']' {
                    Ok((es, j + 1))
                } else {
                    proof {
                        reveal_strlit("unterminated array group");
                    }
                    Err((j, "unterminated array group"))
                }
            },
        }
    } else {
        proof {
            reveal_strlit("expected an array group");
        }
        Err((i, "expected an array group"))
    }
}

fn parse_base_vec(s: &str, i: usize) -> (r: Result<
    (Vec<NodeaggSubExpr>, usize),
    (usize, &'static str),
>)
    requires
        i <= s@.len(),
    ensures
        r is Err <==> base_at(s@, i as int) is None,
        r matches Ok((subs, j)) ==> base_at(s@, i as int) == Some((subs_view(subs@), j as int))
            && i <= j <= s@.len(),
        r matches Err(f) ==> f.0 <= s@.len() && f.1@.len() > 0,
    decreases s@.len() - i,
{
    let jw = scan_word(s, i);
    if jw > i {
        let word = s.substring_char(i, jw).to_owned();
        let ghost wv = word@;
        match parse_base_vec(s, jw) {
            Err(p) => Err(p),
            Ok((mut rest, k)) => {
                let ghost old_rest = rest@;
                rest.insert(0, NodeaggSubExpr::NodeaggSub(word));
                proof {
                    assert(subs_view(rest@) =~= seq![SubExprModel::Word(wv)] + subs_view(
                        old_rest,
                    ));
                }
                Ok((rest, k))
            },
        }
    } else {
        let n = s.unicode_len();
        if i < n && s.get_char(i) == '[' {
            match parse_array(s, i) {
                Err(p) => Err(p),
                Ok((es, j)) => {
                    let ghost esv = es@;
                    match parse_base_vec(s, j) {
                        Err(p) => Err(p),
                        Ok((mut rest, k)) => {
                            let ghost old_rest = rest@;
                            rest.insert(0, NodeaggSubExpr::Array(NodeaggSubArray { values: es }));
                            proof {
                                assert(subs_view(rest@) =~= seq![SubExprModel::Arr(esv)]
                                    + subs_view(old_rest));
                            }
                            Ok((rest, k))
                        },
                    }
                },
            }
        } else {
            let j = tabspaces(s, i);
            let es: Vec<NodeaggSubExpr> = Vec::new();
            proof {
                assert(subs_view(es@) =~= Seq::<SubExprModel>::empty());
            }
            Ok((es, j))
        }
    }
}

fn parse_bases_vec(s: &str, i: usize) -> (r: Result<
    (Vec<NodeaggBaseExpr>, usize),
    (usize, &'static str),
>)
    requires
        i <= s@.len(),
    ensures
        r is Err <==> bases_at(s@, i as int) is None,
        r matches Ok((bs, j)) ==> bases_at(s@, i as int) == Some((bases_view(bs@), j as int))
            && i <= j <= s@.len(),
        r matches Err(f) ==> f.0 <= s@.len() && f.1@.len() > 0,
    decreases s@.len() - i,
{
    match parse_base_vec(s, i) {
        Err(p) => Err(p),
        Ok((subs, j)) => {
            let b = NodeaggBaseExpr(subs);
            let ghost bv = b@;
            let j2 = comment(s, j);
            let n = s.unicode_len();
            let mut sep = false;
            if j2 < n {
                let c = s.get_char(j2);
                if c == ',' || c == '\n' {
                    sep = true;
                }
            }
            if sep {
                let j3t = tabspaces(s, j2 + 1);
                let j3 = comment(s, j3t);
                match parse_bases_vec(s, j3) {
                    Err(p) => Err(p),
                    Ok((mut rest, k)) => {
                        let ghost old_rest = rest@;
                        rest.insert(0, b);
                        proof {
                            assert(bases_view(rest@) =~= seq![bv] + bases_view(old_rest));
                        }
                        Ok((rest, k))
                    },
                }
            } else {
                let mut bs: Vec<NodeaggBaseExpr> = Vec::new();
                bs.push(b);
                proof {
                    assert(bases_view(bs@) =~= seq![bv]);
                }
                Ok((bs, j2))
            }
        },
    }
}

impl View for NodeaggExpr {
    type V = Seq<Seq<SubExprModel>>;

    closed spec fn view(&self) -> Seq<Seq<SubExprModel>> {
        bases_view(self.0@)
    }
}

/// The names of all base expressions, concatenated in declaration order,
/// duplicates still present.
pub open spec fn concat_strings(bs: Seq<Seq<SubExprModel>>) -> Seq<Seq<char>>
    decreases bs.len(),
{
    if bs.len() == 0 {
        Seq::empty()
    } else {
        concat_strings(bs.drop_last()) + base_strings(bs.last())
    }
}

/// The names a whole pattern produces: every base expression's expansion in
/// order, each distinct name kept only at its first occurrence.
pub open spec fn expr_strings(bs: Seq<Seq<SubExprModel>>) -> Seq<Seq<char>> {
    crate::iter::dedup(concat_strings(bs), Seq::empty())
}

impl NodeaggExpr {
    /// Wraps a list of base expressions as a whole pattern.
    pub fn new(bases: Vec<NodeaggBaseExpr>) -> (r: Self)
        ensures
            r@ == bases_view(bases@),
    {
        NodeaggExpr(bases)
    }

    /// Starts a lazy, deduplicating iteration over the pattern's names:
    /// one base-expression cursor per base expression, chained and filtered,
    /// each name computed only when pulled.  Every fresh iterator yields
    /// `expr_strings(self@)`, so repeated passes over one parsed pattern
    /// produce identical sequences.
    pub fn iter(&self) -> (r: NodeaggIterator)
        ensures
            r.future() == expr_strings(self@),
    {
        let mut producers: Vec<BaseCursor> = Vec::new();
        let mut i: usize = 0;
        while i < self.0.len()
            invariant
                0 <= i <= self.0@.len(),
                producers@.map_values(|p: BaseCursor| p.remaining()).flatten() == concat_strings(
                    bases_view(self.0@.subrange(0, i as int)),
                ),
            decreases self.0@.len() - i,
        {
            broadcast use Seq::lemma_flatten_push;

            let ghost prev_map = producers@.map_values(|p: BaseCursor| p.remaining());
            let c = BaseCursor::new(&self.0[i]);
            let ghost crem = c.remaining();
            producers.push(c);
            i = i + 1;
            proof {
                assert(producers@.map_values(|p: BaseCursor| p.remaining()) =~= prev_map.push(
                    crem,
                ));
                let pre = bases_view(self.0@.subrange(0, i as int));
                assert(pre.drop_last() =~= bases_view(self.0@.subrange(0, i - 1)));
                assert(pre.last() == self.0@[i - 1]@);
                assert(producers@.map_values(|p: BaseCursor| p.remaining()).flatten()
                    == concat_strings(pre));
            }
        }
        proof {
            assert(bases_view(self.0@.subrange(0, self.0@.len() as int)) =~= self@);
        }
        NodeaggIterator::new(producers)
    }
}

/// Parses a single sub-expression at the start of `s`: a literal word, or a
/// bracketed array group.  Returns the sub-expression and the position just
/// past it, or a description and the approximate offset of the trouble when
/// none starts there or the group is malformed.
pub fn nodeagg_sub_expr(s: &str) -> (r: Result<(NodeaggSubExpr, usize), (usize, &'static str)>)
    ensures
        r is Err <==> sub_expr_at(s@, 0) is None,
        r matches Ok((e, j)) ==> sub_expr_at(s@, 0) == Some((e@, j as int)) && j <= s@.len(),
        r matches Err(f) ==> f.0 <= s@.len() && f.1@.len() > 0,
{
    let jw = scan_word(s, 0);
    if jw > 0 {
        let word = s.substring_char(0, jw).to_owned();
        Ok((NodeaggSubExpr::NodeaggSub(word), jw))
    } else {
        let n = s.unicode_len();
        if n > 0 && s.get_char(0) == '[' {
            match parse_array(s, 0) {
                Err(p) => Err(p),
                Ok((es, j)) => Ok((NodeaggSubExpr::Array(NodeaggSubArray { values: es }), j)),
            }
        } else {
            proof {
                reveal_strlit("expected a word or array group");
            }
            Err((0, "expected a word or array group"))
        }
    }
}

/// Parses a base expression at the start of `s`: as many words and array
/// groups as will fit, then trailing horizontal whitespace.  Returns the
/// base expression and the position just past it; the base expression may be
/// empty.  Fails only on a malformed array group, with a description and
/// the approximate offset of the trouble.
pub fn nodeagg_base_expr(s: &str) -> (r: Result<(NodeaggBaseExpr, usize), (usize, &'static str)>)
    ensures
        r is Err <==> base_at(s@, 0) is None,
        r matches Ok((b, j)) ==> base_at(s@, 0) == Some((b@, j as int)) && j <= s@.len(),
        r matches Err(f) ==> f.0 <= s@.len() && f.1@.len() > 0,
{
    match parse_base_vec(s, 0) {
        Err(p) => Err(p),
        Ok((subs, j)) => Ok((NodeaggBaseExpr(subs), j)),
    }
}

/// The position where leftover input begins: `Some(k)` exactly when the
/// base expressions parse but the input is not consumed to its end.
pub open spec fn residual_start(s: Seq<char>) -> Option<int> {
    let i0 = space_run(s, 0);
    match bases_at(s, i0 as int) {
        None => None,
        Some((bs, j)) => {
            let k = comment_end(s, j + tabspace_run(s, j));
            if k == s.len() {
                None
            } else {
                Some(k)
            }
        },
    }
}

/// Parses a whole pattern: base expressions separated by commas or newlines,
/// with whitespace and `#` comments where the grammar allows them.  The whole
/// input must be consumed; leftover text is a failure whose message quotes
/// the leftover.  Every failure carries a description and the approximate
/// offset of the trouble.
pub fn nodeagg_expr(s: &str) -> (r: Result<NodeaggExpr, (usize, String)>)
    ensures
        r matches Ok(e) ==> parse_spec(s@) == Some(e@),
        r is Err <==> parse_spec(s@) is None,
        r matches Err(f) ==> f.0 <= s@.len() && f.1@.len() > 0,
        residual_start(s@) matches Some(k) ==> r matches Err(f2) && f2.0 == k && f2.1@
            == "string `"@ + s@.subrange(k, s@.len() as int) + "' still exists after parse"@,
{
    let i0 = spaces(s, 0);
    match parse_bases_vec(s, i0) {
        Err(f) => Err((f.0, String::from_str(f.1))),
        Ok((bs, j)) => {
            let jt = tabspaces(s, j);
            let k = comment(s, jt);
            let n = s.unicode_len();
            if k == n {
                Ok(NodeaggExpr(bs))
            } else {
                let mut m = String::from_str("string `");
                m.append(s.substring_char(k, n));
                m.append("' still exists after parse");
                proof {
                    reveal_strlit("string `");
                }
                Err((k, m))
            }
        },
    }
}

/// The data-model invariant of an array element: its width counts at least
/// one digit of the literal it came from.
pub open spec fn wf_elem(e: NodeaggSubArrayElement) -> bool {
    e.width >= 1
}

/// The data-model invariant of a sub-expression: a literal word is
/// non-empty, and an array group holds at least one element, each with a
/// positive width.
pub open spec fn wf_sub(m: SubExprModel) -> bool {
    match m {
        SubExprModel::Word(w) => w.len() >= 1,
        SubExprModel::Arr(es) => es.len() >= 1 && forall|k: int|
            0 <= k < es.len() ==> wf_elem(#[trigger] es[k]),
    }
}

/// The data-model invariant of a base expression.
pub open spec fn wf_base(b: Seq<SubExprModel>) -> bool {
    forall|k: int| 0 <= k < b.len() ==> wf_sub(#[trigger] b[k])
}

/// The data-model invariant of a whole pattern.
pub open spec fn wf_expr(bs: Seq<Seq<SubExprModel>>) -> bool {
    forall|k: int| 0 <= k < bs.len() ==> wf_base(#[trigger] bs[k])
}

proof fn lemma_comma_list_wf(s: Seq<char>, i: int)
    requires
        0 <= i <= s.len() <= usize::MAX,
    ensures
        comma_list_at(s, i) matches Some((es, j)) ==> es.len() >= 1 && forall|k: int|
            0 <= k < es.len() ==> wf_elem(#[trigger] es[k]),
    decreases s.len() - i,
{
    let d1 = digit_run(s, i);
    if d1 > 0 {
        lemma_digit_run_le(s, i);
        let j = i + d1;
        if j < s.len() && s[j] == '-' && digit_run(s, j + 1) > 0 {
            lemma_digit_run_le(s, j + 1);
        }
        if let Some((e, je)) = elem_at(s, i) {
            assert(wf_elem(e));
            if 0 <= je < s.len() && s[je] == ',' {
                lemma_comma_list_wf(s, je + 1);
            }
        }
    }
}

proof fn lemma_base_at_wf(s: Seq<char>, i: int)
    requires
        0 <= i <= s.len() <= usize::MAX,
    ensures
        base_at(s, i) matches Some((b, j)) ==> wf_base(b),
    decreases s.len() - i,
{
    if word_run(s, i) > 0 {
        lemma_word_run_le(s, i);
        lemma_base_at_wf(s, i + word_run(s, i));
    } else if 0 <= i < s.len() && s[i] == '[' {
        lemma_comma_list_at_le(s, i + 1);
        lemma_comma_list_wf(s, i + 1);
        if let Some((es, j)) = array_at(s, i) {
            lemma_base_at_wf(s, j);
        }
    }
}

proof fn lemma_bases_at_wf(s: Seq<char>, i: int)
    requires
        0 <= i <= s.len() <= usize::MAX,
    ensures
        bases_at(s, i) matches Some((bs, j)) ==> wf_expr(bs),
    decreases s.len() - i,
{
    lemma_base_at_le(s, i);
    lemma_base_at_wf(s, i);
    if let Some((b, j)) = base_at(s, i) {
        lemma_comment_end_le(s, j);
        let j2 = comment_end(s, j);
        if 0 <= j2 < s.len() && (s[j2] == ',' || s[j2] == '\n') {
            lemma_tabspace_run_le(s, j2 + 1);
            lemma_comment_end_le(s, j2 + 1 + tabspace_run(s, j2 + 1));
            lemma_bases_at_wf(s, comment_end(s, j2 + 1 + tabspace_run(s, j2 + 1)));
        }
    }
}

/// Everything the parser accepts satisfies the data-model invariants: every
/// literal word is non-empty, every array group holds at least one element,
/// and every element width is at least one digit.
pub proof fn lemma_parse_wf(s: Seq<char>)
    requires
        s.len() <= usize::MAX,
    ensures
        parse_spec(s) matches Some(bs) ==> wf_expr(bs),
{
    lemma_space_run_le_from(s, 0);
    lemma_bases_at_wf(s, space_run(s, 0) as int);
}

proof fn lemma_space_run_le_from(s: Seq<char>, i: int)
    requires
        0 <= i <= s.len(),
    ensures
        i + space_run(s, i) <= s.len(),
    decreases s.len() - i,
{
    if i < s.len() && crate::parser::is_white(s[i]) {
        lemma_space_run_le_from(s, i + 1);
    }
}

/// Determinism law: the names an iteration yields are a function of the
/// parsed expression alone.  `NodeaggExpr::iter` guarantees that every full
/// pass produces exactly `expr_strings(e@)`, with fresh traversal and
/// deduplication state each time; two successive full iterations over one
/// parsed expression are therefore the same sequence.
pub proof fn lemma_iteration_deterministic(
    e: &NodeaggExpr,
    first_run: Seq<Seq<char>>,
    second_run: Seq<Seq<char>>,
)
    requires
        first_run == expr_strings(e@),
        second_run == expr_strings(e@),
    ensures
        first_run == second_run,
{
}

/// Deduplication law: the sequence a pattern produces holds no repeated
/// name, so the number of distinct names equals the total count produced.
pub proof fn lemma_expansion_distinct(bs: Seq<Seq<SubExprModel>>)
    ensures
        forall|i: int, j: int|
            0 <= i < j < expr_strings(bs).len() ==> expr_strings(bs)[i] != expr_strings(bs)[j],
{
    crate::iter::lemma_dedup_distinct(concat_strings(bs), Seq::empty());
}

/// The product of the choice counts of a base expression's sub-expressions.
pub open spec fn choice_counts_product(b: Seq<SubExprModel>) -> nat
    decreases b.len(),
{
    if b.len() == 0 {
        1
    } else {
        choice_counts_product(b.drop_last()) * sub_strings(b.last()).len()
    }
}

proof fn lemma_cross_len(a: Seq<Seq<char>>, b: Seq<Seq<char>>)
    ensures
        cross(a, b).len() == a.len() * b.len(),
    decreases a.len(),
{
    if a.len() > 0 {
        lemma_cross_len(a.drop_last(), b);
        assert(cross(a, b).len() == (a.len() - 1) * b.len() + b.len());
        assert((a.len() - 1) * b.len() + b.len() == a.len() * b.len()) by (nonlinear_arith);
    }
}

proof fn lemma_cart_len(b: Seq<SubExprModel>)
    ensures
        cart(sub_strings_of(b)).len() == choice_counts_product(b),
    decreases b.len(),
{
    if b.len() == 0 {
        assert(sub_strings_of(b) =~= Seq::<Seq<Seq<char>>>::empty());
    } else {
        lemma_cart_len(b.drop_last());
        let l = sub_strings_of(b);
        assert(l.drop_last() =~= sub_strings_of(b.drop_last()));
        assert(l.last() == sub_strings(b.last()));
        lemma_cross_len(cart(l.drop_last()), l.last());
    }
}

/// Cartesian count law: a base expression whose sub-expressions offer
/// `N1..Nk` choices produces exactly `N1*...*Nk` names before any
/// deduplication.  The order is fixed by `cart`: the last sub-expression's
/// choice advances fastest, the first slowest.
pub proof fn lemma_cartesian_count(b: Seq<SubExprModel>)
    requires
        b.len() > 0,
    ensures
        base_strings(b).len() == choice_counts_product(b),
{
    lemma_cart_len(b);
}

proof fn lemma_group_width_ub(es: Seq<NodeaggSubArrayElement>)
    ensures
        forall|k: int| 0 <= k < es.len() ==> (#[trigger] es[k].width) as nat <= group_width(es),
    decreases es.len(),
{
    if es.len() > 0 {
        lemma_group_width_ub(es.drop_last());
        assert forall|k: int| 0 <= k < es.len() implies (#[trigger] es[k].width) as nat
            <= group_width(es) by {
            if k < es.len() - 1 {
                assert(es.drop_last()[k] == es[k]);
            }
        }
    }
}

/// Width law: within one array group, every produced number is zero-padded
/// to one shared width, the greatest digit width among the group's elements;
/// a value whose natural rendering is wider is printed in full.
pub proof fn lemma_group_width_law(es: Seq<NodeaggSubArrayElement>)
    ensures
        group_strings(es).len() == group_values(es).len(),
        forall|i: int|
            0 <= i < group_strings(es).len() ==> #[trigger] group_strings(es)[i] == width_str(
                group_values(es)[i] as nat,
                group_width(es),
            ),
        forall|i: int|
            0 <= i < group_strings(es).len() ==> (#[trigger] group_strings(es)[i]).len()
                >= group_width(es),
        forall|k: int| 0 <= k < es.len() ==> (#[trigger] es[k].width) as nat <= group_width(es),
{
    lemma_group_width_ub(es);
    assert forall|i: int| 0 <= i < group_strings(es).len() implies (#[trigger] group_strings(
        es,
    )[i]).len() >= group_width(es) by {
        assert(group_strings(es)[i] == width_str(group_values(es)[i] as nat, group_width(es)));
    }
}

} // verus!
