//! What the instructions and builtins of the machine come to, step by step.

use crate::float::FactV;
use crate::ir::{BinOp, FunctionV, Instr, ProgramV, UnOp};
use crate::machine::{
    call_native, new_frame, pairs_of, sort_keys, sorted, step, FrameV, HostCallV, Nat, StateV,
};
use crate::relations::{comes_first, law_texts_differ_at_a_place};
use crate::sorting::law_sort_by_fields_in_turn;
use crate::text::{lemma_before_irreflexive, lemma_before_total, lemma_before_transitive, text_before};
use crate::value::{
    array_at, compare, field_of, field_place, map_at, str_at, CellV, NativeId, Rel, TryV, Value,
};
use vstd::prelude::*;

verus! {

/// The frame at work.
pub open spec fn top(s: StateV) -> FrameV {
    s.frames.last()
}

/// The next instruction is `i`.
pub open spec fn next_is(p: ProgramV, s: StateV, i: Instr) -> bool {
    &&& s.frames.len() > 0
    &&& (top(s).fn_idx as int) < p.fns.len()
    &&& (top(s).pc as int) < p.fns[top(s).fn_idx as int].code.len()
    &&& p.fns[top(s).fn_idx as int].code[top(s).pc as int] == i
    &&& top(s).pc < usize::MAX
}

/// `t` is `s` one instruction further, with that stack in the frame at work, and
/// nothing else changed but for the heap.
pub open spec fn further(s: StateV, t: StateV, stack: Seq<Value>) -> bool {
    &&& t.frames.len() == s.frames.len()
    &&& t.frames.drop_last() == s.frames.drop_last()
    &&& top(t) == (FrameV { stack, pc: (top(s).pc + 1) as usize, ..top(s) })
    &&& t.g == s.g
}

/// The step leaves `v` upon `rest`, and changes nothing else.
pub open spec fn gives(p: ProgramV, f: Seq<FactV>, s: StateV, rest: Seq<Value>, v: Value) -> bool {
    let (t, o) = step(p, f, s);
    o is None && t.h == s.h && further(s, t, rest.push(v))
}

/// The step fails, and changes nothing.
pub open spec fn fails(p: ProgramV, f: Seq<FactV>, s: StateV) -> bool {
    let (t, o) = step(p, f, s);
    o is Some && o->Some_0 is Error && t == s
}

/// The value fits in an integer.
pub open spec fn in_range(x: int) -> bool {
    i64::MIN <= x <= i64::MAX
}

/// The operator works on the two values on top of the stack, of which the upper
/// one is its right operand.
pub open spec fn applies(p: ProgramV, s: StateV, op: BinOp, rest: Seq<Value>, a: Value, b: Value) -> bool {
    next_is(p, s, Instr::BinOp(op)) && top(s).stack == rest + seq![a, b]
}

proof fn lemma_applies(p: ProgramV, s: StateV, op: BinOp, rest: Seq<Value>, a: Value, b: Value)
    requires
        applies(p, s, op, rest, a, b),
    ensures
        top(s).stack.len() == rest.len() + 2,
        top(s).stack[rest.len() as int] == a,
        top(s).stack[rest.len() as int + 1] == b,
        top(s).stack.take(rest.len() as int) == rest,
        s.frames.drop_last().push(top(s)) == s.frames,
{
    assert(top(s).stack.take(rest.len() as int) =~= rest);
    assert(s.frames.drop_last().push(top(s)) =~= s.frames);
}

proof fn lemma_drop_push(below: Seq<FrameV>, fr: FrameV)
    ensures
        below.push(fr).drop_last() == below,
        below.push(fr).last() == fr,
{
    assert(below.push(fr).drop_last() =~= below);
}

/// Sums, differences and products of integers are what they are, and fail where
/// they do not fit.
pub proof fn law_integers_are_computed(
    p: ProgramV,
    f: Seq<FactV>,
    s: StateV,
    op: BinOp,
    rest: Seq<Value>,
    x: i64,
    y: i64,
)
    requires
        applies(p, s, op, rest, Value::Int(x), Value::Int(y)),
    ensures
        op == BinOp::Add ==> if in_range(x + y) {
            gives(p, f, s, rest, Value::Int((x + y) as i64))
        } else {
            fails(p, f, s)
        },
        op == BinOp::Sub ==> if in_range(x - y) {
            gives(p, f, s, rest, Value::Int((x - y) as i64))
        } else {
            fails(p, f, s)
        },
        op == BinOp::Mul ==> if in_range(x * y) {
            gives(p, f, s, rest, Value::Int((x * y) as i64))
        } else {
            fails(p, f, s)
        },
        op == BinOp::Mod && y == 0 ==> fails(p, f, s),
{
    lemma_applies(p, s, op, rest, Value::Int(x), Value::Int(y));
    lemma_drop_push(s.frames.drop_last(), step(p, f, s).0.frames.last());
}

/// The remainder of integers is never negative, is below the divisor's size, and
/// leaves a multiple of the divisor.
pub proof fn law_remainders(
    p: ProgramV,
    f: Seq<FactV>,
    s: StateV,
    rest: Seq<Value>,
    x: i64,
    y: i64,
) -> (r: (int, int))
    requires
        applies(p, s, BinOp::Mod, rest, Value::Int(x), Value::Int(y)),
        y != 0,
    ensures
        gives(p, f, s, rest, Value::Int(r.1 as i64)),
        0 <= r.1,
        r.1 < y || r.1 < -y,
        x == r.0 * y + r.1,
{
    lemma_applies(p, s, BinOp::Mod, rest, Value::Int(x), Value::Int(y));
    lemma_drop_push(s.frames.drop_last(), step(p, f, s).0.frames.last());
    let m = if y < 0 { -y } else { y as int };
    let r = x as int % m;
    vstd::arithmetic::div_mod::lemma_fundamental_div_mod(x as int, m);
    vstd::arithmetic::div_mod::lemma_mod_bound(x as int, m);
    let q = x as int / m;
    if y < 0 {
        assert(m * q == (-q) * y) by (nonlinear_arith)
            requires
                m == -y,
        ;
        (-q, r)
    } else {
        assert(m * q == q * y) by (nonlinear_arith)
            requires
                m == y,
        ;
        (q, r)
    }
}

/// Integers are compared by size.
pub proof fn law_integers_are_compared(
    p: ProgramV,
    f: Seq<FactV>,
    s: StateV,
    op: BinOp,
    rest: Seq<Value>,
    x: i64,
    y: i64,
)
    requires
        applies(p, s, op, rest, Value::Int(x), Value::Int(y)),
    ensures
        op == BinOp::Lt ==> gives(p, f, s, rest, Value::Bool(x < y)),
        op == BinOp::Le ==> gives(p, f, s, rest, Value::Bool(x <= y)),
        op == BinOp::Gt ==> gives(p, f, s, rest, Value::Bool(x > y)),
        op == BinOp::Ge ==> gives(p, f, s, rest, Value::Bool(x >= y)),
        op == BinOp::Eq ==> gives(p, f, s, rest, Value::Bool(x == y)),
        op == BinOp::Ne ==> gives(p, f, s, rest, Value::Bool(x != y)),
{
    lemma_applies(p, s, op, rest, Value::Int(x), Value::Int(y));
    lemma_drop_push(s.frames.drop_last(), step(p, f, s).0.frames.last());
}

/// Texts are compared in the order of their code points.
pub proof fn law_texts_are_compared(
    p: ProgramV,
    f: Seq<FactV>,
    s: StateV,
    op: BinOp,
    rest: Seq<Value>,
    i: usize,
    j: usize,
)
    requires
        applies(p, s, op, rest, Value::Str(i), Value::Str(j)),
    ensures
        ({
            let (x, y) = (str_at(s.h, i), str_at(s.h, j));
            &&& op == BinOp::Lt ==> gives(p, f, s, rest, Value::Bool(comes_first(x, y)))
            &&& op == BinOp::Le ==> gives(p, f, s, rest, Value::Bool(!comes_first(y, x)))
            &&& op == BinOp::Gt ==> gives(p, f, s, rest, Value::Bool(comes_first(y, x)))
            &&& op == BinOp::Ge ==> gives(p, f, s, rest, Value::Bool(!comes_first(x, y)))
            &&& op == BinOp::Eq ==> gives(p, f, s, rest, Value::Bool(x == y))
            &&& op == BinOp::Ne ==> gives(p, f, s, rest, Value::Bool(x != y))
        }),
{
    let (x, y) = (str_at(s.h, i), str_at(s.h, j));
    law_texts_differ_at_a_place(x, y);
    law_texts_differ_at_a_place(y, x);
    lemma_before_total(x, y);
    lemma_before_irreflexive(x);
    if text_before(x, y) && text_before(y, x) {
        lemma_before_transitive(x, y, x);
    }
    lemma_applies(p, s, op, rest, Value::Str(i), Value::Str(j));
    lemma_drop_push(s.frames.drop_last(), step(p, f, s).0.frames.last());
}

/// Two texts with `..` between them are a new text: the one and then the other.
pub proof fn law_texts_are_joined(
    p: ProgramV,
    f: Seq<FactV>,
    s: StateV,
    rest: Seq<Value>,
    i: usize,
    j: usize,
)
    requires
        applies(p, s, BinOp::Concat, rest, Value::Str(i), Value::Str(j)),
        s.h.len() < usize::MAX,
    ensures
        ({
            let (t, o) = step(p, f, s);
            let n = s.h.len() as usize;
            &&& o is None
            &&& further(s, t, rest.push(Value::Str(n)))
            &&& t.h == s.h.push(CellV::Str(str_at(s.h, i) + str_at(s.h, j)))
            &&& str_at(t.h, n) == str_at(s.h, i) + str_at(s.h, j)
        }),
{
    lemma_applies(p, s, BinOp::Concat, rest, Value::Str(i), Value::Str(j));
    lemma_drop_push(s.frames.drop_last(), step(p, f, s).0.frames.last());
}

/// Values of two kinds are not equal, and a number, a text and a map are not
/// added, subtracted or multiplied with each other.
pub proof fn law_unlike_values(
    p: ProgramV,
    f: Seq<FactV>,
    s: StateV,
    op: BinOp,
    rest: Seq<Value>,
    a: Value,
    b: Value,
)
    requires
        applies(p, s, op, rest, a, b),
        a is Nil && b is Int || a is Int && b is Str || a is Str && b is Int || a is Bool && b
            is Int || a is Array && b is Int || a is Dict && b is Str,
    ensures
        op == BinOp::Eq ==> gives(p, f, s, rest, Value::Bool(false)),
        op == BinOp::Ne ==> gives(p, f, s, rest, Value::Bool(true)),
        op == BinOp::Add || op == BinOp::Sub || op == BinOp::Mul || op == BinOp::Div || op
            == BinOp::Lt || op == BinOp::Gt || op == BinOp::Le || op == BinOp::Ge ==> fails(
            p,
            f,
            s,
        ),
{
    lemma_applies(p, s, op, rest, a, b);
    lemma_drop_push(s.frames.drop_last(), step(p, f, s).0.frames.last());
}

/// `!` makes true of nil and false, and false of anything else; `-` negates an
/// integer and fails where the result does not fit.
pub proof fn law_signs(
    p: ProgramV,
    f: Seq<FactV>,
    s: StateV,
    op: UnOp,
    rest: Seq<Value>,
    a: Value,
)
    requires
        next_is(p, s, Instr::UnOp(op)),
        top(s).stack == rest.push(a),
    ensures
        op == UnOp::Not ==> gives(
            p,
            f,
            s,
            rest,
            Value::Bool(a == Value::Nil || a == Value::Bool(false)),
        ),
        op == UnOp::Neg && a is Int ==> if a->Int_0 > i64::MIN {
            gives(p, f, s, rest, Value::Int((-a->Int_0) as i64))
        } else {
            fails(p, f, s)
        },
        op == UnOp::Neg && (a is Nil || a is Bool || a is Str || a is Array || a is Dict) ==> fails(
            p,
            f,
            s,
        ),
{
    assert(top(s).stack.take(rest.len() as int) =~= rest);
    assert(s.frames.drop_last().push(top(s)) =~= s.frames);
    lemma_drop_push(s.frames.drop_last(), step(p, f, s).0.frames.last());
}

/// A jump that tests goes on behind itself where the value on top is true, and
/// by its distance where it is nil or false; the value is gone either way.
pub proof fn law_tests_decide(
    p: ProgramV,
    f: Seq<FactV>,
    s: StateV,
    rest: Seq<Value>,
    a: Value,
    d: i32,
)
    requires
        next_is(p, s, Instr::JumpIfFalse(d)),
        top(s).stack == rest.push(a),
        0 <= top(s).pc + 1 + d <= usize::MAX,
    ensures
        ({
            let (t, o) = step(p, f, s);
            let yes = a != Value::Nil && a != Value::Bool(false);
            &&& o is None
            &&& t.h == s.h
            &&& t.g == s.g
            &&& t.frames.drop_last() == s.frames.drop_last()
            &&& top(t).stack == rest
            &&& top(t).locals == top(s).locals
            &&& top(t).fn_idx == top(s).fn_idx
            &&& top(t).pc == if yes {
                top(s).pc + 1
            } else {
                top(s).pc + 1 + d
            }
        }),
{
    assert(top(s).stack.take(rest.len() as int) =~= rest);
    lemma_drop_push(s.frames.drop_last(), step(p, f, s).0.frames.last());
}

/// What is stored in a local is what the local holds, and no other local
/// changes; what is loaded is what the local holds.
pub proof fn law_locals_keep(
    p: ProgramV,
    f: Seq<FactV>,
    s: StateV,
    rest: Seq<Value>,
    a: Value,
    i: u16,
    j: int,
)
    requires
        (i as int) < top(s).locals.len(),
        0 <= j < top(s).locals.len(),
        next_is(p, s, Instr::StoreLocal(i)) || next_is(p, s, Instr::LoadLocal(i)),
        top(s).stack == rest.push(a),
    ensures
        next_is(p, s, Instr::StoreLocal(i)) ==> ({
            let (t, o) = step(p, f, s);
            &&& o is None
            &&& t.h == s.h
            &&& t.g == s.g
            &&& top(t).stack == rest
            &&& top(t).pc == top(s).pc + 1
            &&& top(t).locals.len() == top(s).locals.len()
            &&& top(t).locals[j] == if j == i { a } else { top(s).locals[j] }
        }),
        next_is(p, s, Instr::LoadLocal(i)) ==> gives(
            p,
            f,
            s,
            top(s).stack,
            top(s).locals[i as int],
        ),
{
    assert(top(s).stack.take(rest.len() as int) =~= rest);
    lemma_drop_push(s.frames.drop_last(), step(p, f, s).0.frames.last());
}

/// An element of an array is read by its index, from nought on; beyond the end
/// there is nil.
pub proof fn law_elements_are_read(
    p: ProgramV,
    f: Seq<FactV>,
    s: StateV,
    rest: Seq<Value>,
    a: usize,
    i: i64,
)
    requires
        next_is(p, s, Instr::GetIndex),
        top(s).stack == rest + seq![Value::Array(a), Value::Int(i)],
    ensures
        gives(
            p,
            f,
            s,
            rest,
            if 0 <= i < array_at(s.h, a).len() {
                array_at(s.h, a)[i as int]
            } else {
                Value::Nil
            },
        ),
{
    assert(top(s).stack.take(rest.len() as int) =~= rest);
    lemma_drop_push(s.frames.drop_last(), step(p, f, s).0.frames.last());
}

/// An element that is set holds the value from then on, and the others hold what
/// they held; one right behind the end makes the array longer by one; one
/// further on fails.
pub proof fn law_elements_are_set(
    p: ProgramV,
    f: Seq<FactV>,
    s: StateV,
    rest: Seq<Value>,
    a: usize,
    i: i64,
    v: Value,
    j: int,
)
    requires
        next_is(p, s, Instr::SetIndex),
        top(s).stack == rest + seq![Value::Array(a), Value::Int(i), v],
        a < s.h.len(),
        s.h[a as int] is Array,
    ensures
        ({
            let xs = array_at(s.h, a);
            let (t, o) = step(p, f, s);
            if 0 <= i <= xs.len() {
                &&& o is None
                &&& further(s, t, rest)
                &&& t.h.len() == s.h.len()
                &&& forall|c: int| 0 <= c < s.h.len() && c != a ==> #[trigger] t.h[c] == s.h[c]
                &&& array_at(t.h, a).len() == if i == xs.len() { xs.len() + 1 } else { xs.len() }
                &&& array_at(t.h, a)[i as int] == v
                &&& 0 <= j < xs.len() && j != i ==> array_at(t.h, a)[j] == xs[j]
            } else {
                fails(p, f, s)
            }
        }),
{
    assert(top(s).stack.take(rest.len() as int) =~= rest);
    assert(s.frames.drop_last().push(top(s)) =~= s.frames);
    lemma_drop_push(s.frames.drop_last(), step(p, f, s).0.frames.last());
}

/// `push` makes the array longer by the value; `len` counts the elements of an
/// array and the entries of a map; `type` names the kind.
pub proof fn law_collections_grow_and_count(
    h: Seq<CellV>,
    f: Seq<FactV>,
    a: usize,
    v: Value,
    m: usize,
)
    requires
        a < h.len(),
        h[a as int] is Array,
        array_at(h, a).len() < i64::MAX,
        map_at(h, m).len() <= i64::MAX,
    ensures
        ({
            let r = call_native(h, f, NativeId::Push, seq![Value::Array(a), v]);
            &&& r is Done
            &&& r->Done_0 is Val
            &&& r->Done_0->Val_1 == Value::Nil
            &&& array_at(r->Done_0->Val_0, a) == array_at(h, a).push(v)
            &&& r->Done_0->Val_0.len() == h.len()
            &&& forall|c: int|
                0 <= c < h.len() && c != a ==> #[trigger] r->Done_0->Val_0[c] == h[c]
        }),
        call_native(h, f, NativeId::Len, seq![Value::Array(a)]) == TryV::<Nat>::Done(
            Nat::Val(h, Value::Int(array_at(h, a).len() as i64)),
        ),
        call_native(h, f, NativeId::Len, seq![Value::Dict(m)]) == TryV::<Nat>::Done(
            Nat::Val(h, Value::Int(map_at(h, m).len() as i64)),
        ),
        call_native(h, f, NativeId::Len, seq![Value::Nil]) == TryV::<Nat>::Done(
            Nat::Val(h, Value::Int(0)),
        ),
{
}

/// `type` names the kind of a value.
pub proof fn law_kinds_are_named(h: Seq<CellV>, f: Seq<FactV>, v: Value, name: Seq<char>)
    requires
        h.len() < usize::MAX,
        v is Nil && name == "nil"@ || v is Bool && name == "bool"@ || v is Int && name == "int"@
            || v is Float && name == "float"@ || v is Str && name == "string"@ || v is Bytes && name
            == "bytes"@ || v is Array && name == "array"@ || v is Dict && name == "map"@ || v
            is Closure && name == "closure"@,
    ensures
        call_native(h, f, NativeId::TypeOf, seq![v]) == TryV::<Nat>::Done(
            Nat::Val(h.push(CellV::Str(name)), Value::Str(h.len() as usize)),
        ),
{
}

/// `print` hands the host the texts of its arguments, with a blank between them.
pub proof fn law_prints_say_the_texts(h: Seq<CellV>, f: Seq<FactV>, i: usize, j: usize)
    ensures
        call_native(h, f, NativeId::Print, seq![Value::Str(i)]) == TryV::<Nat>::Done(
            Nat::Host(HostCallV::Print(str_at(h, i))),
        ),
        call_native(h, f, NativeId::Print, seq![Value::Str(i), Value::Str(j)]) == TryV::<
            Nat,
        >::Done(Nat::Host(HostCallV::Print(str_at(h, i) + " "@ + str_at(h, j)))),
        call_native(h, f, NativeId::Print, Seq::empty()) == TryV::<Nat>::Done(
            Nat::Host(HostCallV::Print(Seq::empty())),
        ),
{
    reveal_with_fuel(crate::machine::line_of, 4);
    assert(Seq::<char>::empty() + str_at(h, i) =~= str_at(h, i));
}

/// A call runs the function from its start, with the captured values first, then
/// the arguments; a parameter without an argument is nil, and an argument
/// without a parameter is dropped.
pub proof fn law_calls_bind_their_arguments(
    g: FunctionV,
    fn_idx: usize,
    caps: Seq<Value>,
    args: Seq<Value>,
    k: int,
)
    requires
        caps.len() == g.n_caps,
        g.n_caps + g.n_params <= g.n_locals,
        0 <= k < g.n_params,
    ensures
        ({
            let r = new_frame(g, fn_idx, caps, args);
            &&& r is Some
            &&& r->Some_0.pc == 0
            &&& r->Some_0.fn_idx == fn_idx
            &&& r->Some_0.stack.len() == 0
            &&& r->Some_0.locals.len() == g.n_locals
            &&& forall|i: int| 0 <= i < caps.len() ==> r->Some_0.locals[i] == #[trigger] caps[i]
            &&& r->Some_0.locals[g.n_caps + k] == if k < args.len() {
                args[k]
            } else {
                Value::Nil
            }
        }),
{
}

/// Iterating an array gives each index with its element, in order; iterating a
/// map gives each key with its value, in the order of the map.
pub proof fn law_iteration_goes_in_order(h: Seq<CellV>, a: usize, m: usize, i: int)
    ensures
        pairs_of(h, Value::Array(a)) is Ok,
        pairs_of(h, Value::Array(a))->Ok_0.len() == array_at(h, a).len(),
        0 <= i < array_at(h, a).len() ==> pairs_of(h, Value::Array(a))->Ok_0[i] == seq![
            Value::Int(i as i64),
            array_at(h, a)[i],
        ],
        pairs_of(h, Value::Dict(m)) is Ok,
        pairs_of(h, Value::Dict(m))->Ok_0.len() == map_at(h, m).len(),
        0 <= i < map_at(h, m).len() ==> pairs_of(h, Value::Dict(m))->Ok_0[i] == seq![
            map_at(h, m)[i].0,
            map_at(h, m)[i].1,
        ],
{
}

/// The order of values: integers by size, truth values with false first, texts
/// by their code points, and before all of them nil; and of different kinds a
/// truth value comes before an integer, and an integer before a text.
pub proof fn law_values_by_kind_and_size(
    h: Seq<CellV>,
    d: nat,
    x: i64,
    y: i64,
    i: usize,
    j: usize,
    b: bool,
    c: bool,
)
    ensures
        (compare(h, d, Value::Int(x), Value::Int(y)) == Some(Rel::Less)) == (x < y),
        (compare(h, d, Value::Int(x), Value::Int(y)) == Some(Rel::Equal)) == (x == y),
        (compare(h, d, Value::Int(x), Value::Int(y)) == Some(Rel::Greater)) == (x > y),
        (compare(h, d, Value::Str(i), Value::Str(j)) == Some(Rel::Less)) == comes_first(
            str_at(h, i),
            str_at(h, j),
        ),
        (compare(h, d, Value::Str(i), Value::Str(j)) == Some(Rel::Equal)) == (str_at(h, i)
            == str_at(h, j)),
        (compare(h, d, Value::Str(i), Value::Str(j)) == Some(Rel::Greater)) == comes_first(
            str_at(h, j),
            str_at(h, i),
        ),
        (compare(h, d, Value::Bool(b), Value::Bool(c)) == Some(Rel::Less)) == (!b && c),
        (compare(h, d, Value::Bool(b), Value::Bool(c)) == Some(Rel::Equal)) == (b == c),
        compare(h, d, Value::Nil, Value::Nil) == Some(Rel::Equal),
        compare(h, d, Value::Nil, Value::Bool(b)) == Some(Rel::Less),
        compare(h, d, Value::Bool(b), Value::Int(x)) == Some(Rel::Less),
        compare(h, d, Value::Int(x), Value::Str(i)) == Some(Rel::Less),
{
    let (s, t) = (str_at(h, i), str_at(h, j));
    law_texts_differ_at_a_place(s, t);
    law_texts_differ_at_a_place(t, s);
    lemma_before_total(s, t);
    lemma_before_irreflexive(s);
    if text_before(s, t) && text_before(t, s) {
        lemma_before_transitive(s, t, s);
    }
}

proof fn lemma_field_place(h: Seq<CellV>, m: Seq<(Value, Value)>, name: Seq<char>, i: int, j: int)
    requires
        0 <= j <= i < m.len(),
        m[i].0 is Str,
        str_at(h, m[i].0->Str_0) == name,
        forall|k: int|
            0 <= k < i ==> !((#[trigger] m[k]).0 is Str && str_at(h, m[k].0->Str_0) == name),
    ensures
        field_place(h, m, name, j) == i,
    decreases i - j,
{
    if j < i {
        assert(!(m[j].0 is Str && str_at(h, m[j].0->Str_0) == name));
        lemma_field_place(h, m, name, i, j + 1);
    }
}

proof fn lemma_no_field(h: Seq<CellV>, m: Seq<(Value, Value)>, name: Seq<char>, j: int)
    requires
        0 <= j <= m.len(),
        forall|k: int|
            0 <= k < m.len() ==> !((#[trigger] m[k]).0 is Str && str_at(h, m[k].0->Str_0) == name),
    ensures
        field_place(h, m, name, j) == m.len(),
    decreases m.len() - j,
{
    if j < m.len() {
        assert(!(m[j].0 is Str && str_at(h, m[j].0->Str_0) == name));
        lemma_no_field(h, m, name, j + 1);
    }
}

/// A field of a map is the value of the first entry whose key is the name of the
/// field.
pub proof fn law_fields_are_read(h: Seq<CellV>, c: usize, name: Seq<char>, i: int)
    requires
        0 <= i < map_at(h, c).len(),
        map_at(h, c)[i].0 is Str,
        str_at(h, map_at(h, c)[i].0->Str_0) == name,
        forall|k: int|
            0 <= k < i ==> !((#[trigger] map_at(h, c)[k]).0 is Str && str_at(
                h,
                map_at(h, c)[k].0->Str_0,
            ) == name),
    ensures
        field_of(h, Value::Dict(c), name) == map_at(h, c)[i].1,
{
    lemma_field_place(h, map_at(h, c), name, i, 0);
}

/// A field that a map has no entry for is nil.
pub proof fn law_absent_fields_are_nil(h: Seq<CellV>, c: usize, name: Seq<char>)
    requires
        forall|k: int|
            0 <= k < map_at(h, c).len() ==> !((#[trigger] map_at(h, c)[k]).0 is Str && str_at(
                h,
                map_at(h, c)[k].0->Str_0,
            ) == name),
    ensures
        field_of(h, Value::Dict(c), name) == Value::Nil,
{
    lemma_no_field(h, map_at(h, c), name, 0);
}

proof fn lemma_keys_read(h: Seq<CellV>, ks: Seq<Value>, n: int)
    requires
        0 <= n <= ks.len(),
        forall|i: int| 0 <= i < ks.len() ==> (#[trigger] ks[i]) is Str,
    ensures
        sort_keys(h, ks, n) is Some,
        sort_keys(h, ks, n)->Some_0.len() == n,
        forall|i: int|
            0 <= i < n ==> (#[trigger] sort_keys(h, ks, n)->Some_0[i]) == str_at(h, ks[i]->Str_0),
    decreases n,
{
    if n > 0 {
        lemma_keys_read(h, ks, n - 1);
        assert(ks[n - 1] is Str);
    }
}

/// `sort_by` with a list of fields puts the array in the order of the fields:
/// of two elements that agree on the first `k` fields, the earlier one's next
/// field is not above the later one's. It holds the same elements, and nothing
/// else on the heap changes.
pub proof fn law_sort_by_orders_the_array(
    h: Seq<CellV>,
    f: Seq<FactV>,
    a: usize,
    fields: usize,
    i: int,
    j: int,
    k: int,
) -> (order: Seq<int>)
    requires
        a < h.len(),
        h[a as int] is Array,
        forall|m: int|
            0 <= m < array_at(h, fields).len() ==> (#[trigger] array_at(h, fields)[m]) is Str,
        call_native(
            h,
            f,
            NativeId::SortBy,
            seq![Value::Array(a), Value::Array(fields)],
        ) is Done,
        0 <= i < j < array_at(h, a).len(),
        0 <= k < array_at(h, fields).len(),
        ({
            let r = call_native(
                h,
                f,
                NativeId::SortBy,
                seq![Value::Array(a), Value::Array(fields)],
            )->Done_0;
            let s = array_at(r->Val_0, a);
            forall|m: int|
                0 <= m < k ==> ({
                    let name = str_at(h, (#[trigger] array_at(h, fields)[m])->Str_0);
                    compare(h, h.len(), field_of(h, s[i], name), field_of(h, s[j], name)) == Some(
                        Rel::Equal,
                    )
                })
        }),
    ensures
        ({
            let r = call_native(
                h,
                f,
                NativeId::SortBy,
                seq![Value::Array(a), Value::Array(fields)],
            )->Done_0;
            let xs = array_at(h, a);
            let s = array_at(r->Val_0, a);
            let name = str_at(h, array_at(h, fields)[k]->Str_0);
            let c = compare(h, h.len(), field_of(h, s[i], name), field_of(h, s[j], name));
            &&& r is Val
            &&& r->Val_1 == Value::Nil
            &&& r->Val_0.len() == h.len()
            &&& forall|m: int| 0 <= m < h.len() && m != a ==> #[trigger] r->Val_0[m] == h[m]
            &&& s.len() == xs.len()
            &&& order.len() == xs.len()
            &&& order.no_duplicates()
            &&& forall|m: int|
                0 <= m < xs.len() ==> 0 <= (#[trigger] order[m]) < xs.len() && s[m] == xs[order[m]]
            &&& c == Some(Rel::Less) || c == Some(Rel::Equal)
        }),
{
    let args = seq![Value::Array(a), Value::Array(fields)];
    let ks = array_at(h, fields);
    let xs = array_at(h, a);
    assert(args[0] == Value::Array(a) && args[1] == Value::Array(fields));
    lemma_keys_read(h, ks, ks.len() as int);
    let keys = sort_keys(h, ks, ks.len() as int)->Some_0;
    let r = call_native(h, f, NativeId::SortBy, args)->Done_0;
    assert(sorted(h, keys, xs, xs.len() as int) is Some);
    let s = sorted(h, keys, xs, xs.len() as int)->Some_0;
    assert(array_at(r->Val_0, a) == s);
    assert forall|m: int| 0 <= m < k implies compare(
        h,
        h.len(),
        field_of(h, s[i], #[trigger] keys[m]),
        field_of(h, s[j], keys[m]),
    ) == Some(Rel::Equal) by {
        assert(keys[m] == str_at(h, ks[m]->Str_0));
    }
    assert(keys[k] == str_at(h, ks[k]->Str_0));
    law_sort_by_fields_in_turn(h, keys, xs, i, j, k)
}

} // verus!
