//! Runtime values: what a solved model binds to a variable, and what the
//! effect codec reads. A real number travels as a `RealNum`: the IEEE-754
//! bits of an `f64` (`f64::to_bits`), or an integer that the reader widens
//! to `f64`. A record is a list of named fields.
use vstd::prelude::*;

verus! {

/// A real number: the bits of an `f64`, or an integer to be widened to one.
#[derive(PartialEq, Eq, Structural, Clone, Copy, Debug)]
pub enum RealNum {
    Bits(u64),
    Int(i64),
}

#[derive(PartialEq, Debug)]
pub enum Value {
    Int(i64),
    Real(RealNum),
    Bool(bool),
    Str(String),
    Enum { enum_name: String, variant: String, fields: Vec<Value> },
    SeqInt(Vec<i64>),
    SeqBool(Vec<bool>),
    SeqStr(Vec<String>),
    SeqEnum(Vec<Value>),
    SeqComposite(Vec<Vec<(String, Value)>>),
    SetInt(Vec<i64>),
    SetBool(Vec<bool>),
    SetStr(Vec<String>),
    /// A record: field names with their values, each name once.
    Composite(Vec<(String, Value)>),
}

pub enum ValueV {
    Int(i64),
    Real(RealNum),
    Bool(bool),
    Str(Seq<char>),
    Enum { enum_name: Seq<char>, variant: Seq<char>, fields: Seq<ValueV> },
    SeqInt(Seq<i64>),
    SeqBool(Seq<bool>),
    SeqStr(Seq<Seq<char>>),
    SeqEnum(Seq<ValueV>),
    SeqComposite(Seq<Seq<(Seq<char>, ValueV)>>),
    SetInt(Seq<i64>),
    SetBool(Seq<bool>),
    SetStr(Seq<Seq<char>>),
    Composite(Seq<(Seq<char>, ValueV)>),
}

pub open spec fn str_seq_view(v: Seq<String>) -> Seq<Seq<char>> {
    Seq::new(v.len(), |i: int| v[i]@)
}

pub open spec fn value_view(v: Value) -> ValueV
    decreases v,
{
    match v {
        Value::Int(n) => ValueV::Int(n),
        Value::Real(b) => ValueV::Real(b),
        Value::Bool(b) => ValueV::Bool(b),
        Value::Str(s) => ValueV::Str(s@),
        Value::Enum { enum_name, variant, fields } => ValueV::Enum {
            enum_name: enum_name@,
            variant: variant@,
            fields: Seq::new(
                fields.len() as nat,
                |i: int| if 0 <= i < fields.len() { value_view(fields@[i]) } else { ValueV::Int(0) },
            ),
        },
        Value::SeqInt(xs) => ValueV::SeqInt(xs@),
        Value::SeqBool(xs) => ValueV::SeqBool(xs@),
        Value::SeqStr(xs) => ValueV::SeqStr(str_seq_view(xs@)),
        Value::SeqEnum(xs) => ValueV::SeqEnum(
            Seq::new(xs.len() as nat, |i: int| if 0 <= i < xs.len() { value_view(xs@[i]) } else { ValueV::Int(0) }),
        ),
        Value::SeqComposite(rs) => ValueV::SeqComposite(
            Seq::new(
                rs.len() as nat,
                |i: int|
                    if 0 <= i < rs.len() {
                        Seq::new(
                            rs@[i].len() as nat,
                            |j: int|
                                if 0 <= j < rs@[i].len() {
                                    (rs@[i]@[j].0@, value_view(rs@[i]@[j].1))
                                } else {
                                    (Seq::empty(), ValueV::Int(0))
                                },
                        )
                    } else {
                        Seq::empty()
                    },
            ),
        ),
        Value::SetInt(xs) => ValueV::SetInt(xs@),
        Value::SetBool(xs) => ValueV::SetBool(xs@),
        Value::SetStr(xs) => ValueV::SetStr(str_seq_view(xs@)),
        Value::Composite(fs) => ValueV::Composite(
            Seq::new(
                fs.len() as nat,
                |j: int| if 0 <= j < fs.len() { (fs@[j].0@, value_view(fs@[j].1)) } else { (Seq::empty(), ValueV::Int(0)) },
            ),
        ),
    }
}

impl View for Value {
    type V = ValueV;

    open spec fn view(&self) -> ValueV {
        value_view(*self)
    }
}

pub open spec fn values_view(v: Seq<Value>) -> Seq<ValueV> {
    Seq::new(v.len(), |i: int| value_view(v[i]))
}

pub open spec fn record_view(v: Seq<(String, Value)>) -> Seq<(Seq<char>, ValueV)> {
    Seq::new(v.len(), |i: int| (v[i].0@, value_view(v[i].1)))
}

pub open spec fn records_view(v: Seq<Vec<(String, Value)>>) -> Seq<Seq<(Seq<char>, ValueV)>> {
    Seq::new(v.len(), |i: int| record_view(v[i]@))
}

/// The list fields of a value's view, stated over `values_view`,
/// `record_view` and `records_view`.
pub proof fn lemma_value_lists(v: Value)
    ensures
        v is Enum ==> value_view(v) == (ValueV::Enum {
            enum_name: v->enum_name@,
            variant: v->variant@,
            fields: values_view(v->fields@),
        }),
        v matches Value::SeqEnum(xs) ==> value_view(v) == ValueV::SeqEnum(values_view(xs@)),
        v matches Value::Composite(fs) ==> value_view(v) == ValueV::Composite(record_view(fs@)),
        v matches Value::SeqComposite(rs) ==> value_view(v) == ValueV::SeqComposite(records_view(rs@)),
{
    match v {
        Value::Enum { enum_name, variant, fields } => {
            assert(value_view(v)->fields =~= values_view(fields@));
        },
        Value::SeqEnum(xs) => {
            assert(value_view(v)->SeqEnum_0 =~= values_view(xs@));
        },
        Value::Composite(fs) => {
            assert(value_view(v)->Composite_0 =~= record_view(fs@));
        },
        Value::SeqComposite(rs) => {
            assert forall|i: int| 0 <= i < rs.len() implies (#[trigger] value_view(v)->SeqComposite_0[i]) == record_view(
                rs@[i]@,
            ) by {
                assert(value_view(v)->SeqComposite_0[i] =~= record_view(rs@[i]@));
            }
            assert(value_view(v)->SeqComposite_0 =~= records_view(rs@));
        },
        _ => {},
    }
}

pub fn clone_str_vec(v: &Vec<String>) -> (r: Vec<String>)
    ensures
        str_seq_view(r@) == str_seq_view(v@),
{
    let mut out: Vec<String> = Vec::new();
    let mut i: usize = 0;
    while i < v.len()
        invariant
            0 <= i <= v.len(),
            out.len() == i,
            forall|k: int| 0 <= k < i ==> #[trigger] out@[k]@ == v@[k]@,
        decreases v.len() - i,
    {
        out.push(v[i].clone());
        i += 1;
    }
    assert(str_seq_view(out@) =~= str_seq_view(v@));
    out
}

pub fn clone_i64_vec(v: &Vec<i64>) -> (r: Vec<i64>)
    ensures
        r@ == v@,
{
    let mut out: Vec<i64> = Vec::new();
    let mut i: usize = 0;
    while i < v.len()
        invariant
            0 <= i <= v.len(),
            out@ == v@.take(i as int),
        decreases v.len() - i,
    {
        out.push(v[i]);
        assert(out@ =~= v@.take(i + 1));
        i += 1;
    }
    assert(v@.take(v.len() as int) =~= v@);
    out
}

pub fn clone_bool_vec(v: &Vec<bool>) -> (r: Vec<bool>)
    ensures
        r@ == v@,
{
    let mut out: Vec<bool> = Vec::new();
    let mut i: usize = 0;
    while i < v.len()
        invariant
            0 <= i <= v.len(),
            out@ == v@.take(i as int),
        decreases v.len() - i,
    {
        out.push(v[i]);
        assert(out@ =~= v@.take(i + 1));
        i += 1;
    }
    assert(v@.take(v.len() as int) =~= v@);
    out
}

/// A deep copy of each value of `v`.
pub fn clone_values(v: &Vec<Value>) -> (r: Vec<Value>)
    ensures
        values_view(r@) == values_view(v@),
    decreases v, 1int,
{
    let mut out: Vec<Value> = Vec::new();
    let mut i: usize = 0;
    while i < v.len()
        invariant
            0 <= i <= v.len(),
            out.len() == i,
            forall|k: int| 0 <= k < i ==> #[trigger] value_view(out@[k]) == value_view(v@[k]),
        decreases v.len() - i,
    {
        proof {
            assert(decreases_to!(*v => v@[i as int]));
        }
        out.push(clone_value(&v[i]));
        i += 1;
    }
    assert(values_view(out@) =~= values_view(v@));
    out
}

/// A deep copy of a record.
pub fn clone_record(v: &Vec<(String, Value)>) -> (r: Vec<(String, Value)>)
    ensures
        record_view(r@) == record_view(v@),
    decreases v, 1int,
{
    let mut out: Vec<(String, Value)> = Vec::new();
    let mut i: usize = 0;
    while i < v.len()
        invariant
            0 <= i <= v.len(),
            out.len() == i,
            forall|k: int| 0 <= k < i ==> #[trigger] record_view(out@).index(k) == record_view(v@)[k],
        decreases v.len() - i,
    {
        proof {
            assert(decreases_to!(*v => v@[i as int]));
            assert(decreases_to!(v@[i as int] => v@[i as int].1));
        }
        let ghost prev = out@;
        out.push((v[i].0.clone(), clone_value(&v[i].1)));
        assert forall|k: int| 0 <= k < i + 1 implies #[trigger] record_view(out@).index(k) == record_view(v@)[k] by {
            if k < i {
                assert(record_view(out@)[k] == record_view(prev)[k]);
            }
        }
        i += 1;
    }
    assert(record_view(out@) =~= record_view(v@));
    out
}

/// A deep copy of a value.
pub fn clone_value(v: &Value) -> (r: Value)
    ensures
        r@ == v@,
    decreases v, 0int,
{
    let r = match v {
        Value::Int(n) => Value::Int(*n),
        Value::Real(b) => Value::Real(*b),
        Value::Bool(b) => Value::Bool(*b),
        Value::Str(s) => Value::Str(s.clone()),
        Value::Enum { enum_name, variant, fields } => {
            proof {
                assert(decreases_to!(*v => v->fields));
            }
            Value::Enum { enum_name: enum_name.clone(), variant: variant.clone(), fields: clone_values(fields) }
        },
        Value::SeqInt(xs) => Value::SeqInt(clone_i64_vec(xs)),
        Value::SeqBool(xs) => Value::SeqBool(clone_bool_vec(xs)),
        Value::SeqStr(xs) => Value::SeqStr(clone_str_vec(xs)),
        Value::SeqEnum(xs) => {
            proof {
                assert(decreases_to!(*v => v->SeqEnum_0));
            }
            Value::SeqEnum(clone_values(xs))
        },
        Value::SeqComposite(rs) => {
            let mut out: Vec<Vec<(String, Value)>> = Vec::new();
            let mut i: usize = 0;
            while i < rs.len()
                invariant
                    0 <= i <= rs.len(),
                    *v == Value::SeqComposite(*rs),
                    out.len() == i,
                    forall|k: int| 0 <= k < i ==> #[trigger] record_view(out@[k]@) == record_view(rs@[k]@),
                decreases rs.len() - i,
            {
                proof {
                    assert(decreases_to!(*v => v->SeqComposite_0));
                    assert(decreases_to!(v->SeqComposite_0 => rs@[i as int]));
                }
                out.push(clone_record(&rs[i]));
                i += 1;
            }
            assert(records_view(out@) =~= records_view(rs@));
            Value::SeqComposite(out)
        },
        Value::SetInt(xs) => Value::SetInt(clone_i64_vec(xs)),
        Value::SetBool(xs) => Value::SetBool(clone_bool_vec(xs)),
        Value::SetStr(xs) => Value::SetStr(clone_str_vec(xs)),
        Value::Composite(fs) => {
            proof {
                assert(decreases_to!(*v => v->Composite_0));
            }
            Value::Composite(clone_record(fs))
        },
    };
    proof {
        lemma_value_lists(r);
        lemma_value_lists(*v);
    }
    r
}


// ───────────────────────────── equality ─────────────────────────────

fn i64s_equal(a: &Vec<i64>, b: &Vec<i64>) -> (r: bool)
    ensures
        r == (a@ == b@),
{
    if a.len() != b.len() {
        return false;
    }
    let mut i: usize = 0;
    while i < a.len()
        invariant
            a.len() == b.len(),
            0 <= i <= a.len(),
            forall|k: int| 0 <= k < i ==> a@[k] == b@[k],
        decreases a.len() - i,
    {
        if a[i] != b[i] {
            return false;
        }
        i += 1;
    }
    assert(a@ =~= b@);
    true
}

fn bools_equal(a: &Vec<bool>, b: &Vec<bool>) -> (r: bool)
    ensures
        r == (a@ == b@),
{
    if a.len() != b.len() {
        return false;
    }
    let mut i: usize = 0;
    while i < a.len()
        invariant
            a.len() == b.len(),
            0 <= i <= a.len(),
            forall|k: int| 0 <= k < i ==> a@[k] == b@[k],
        decreases a.len() - i,
    {
        if a[i] != b[i] {
            return false;
        }
        i += 1;
    }
    assert(a@ =~= b@);
    true
}

pub(crate) fn strs_equal(a: &Vec<String>, b: &Vec<String>) -> (r: bool)
    ensures
        r == (str_seq_view(a@) == str_seq_view(b@)),
{
    if a.len() != b.len() {
        assert(str_seq_view(a@).len() != str_seq_view(b@).len());
        return false;
    }
    let mut i: usize = 0;
    while i < a.len()
        invariant
            a.len() == b.len(),
            0 <= i <= a.len(),
            forall|k: int| 0 <= k < i ==> a@[k]@ == b@[k]@,
        decreases a.len() - i,
    {
        if a[i] != b[i] {
            assert(str_seq_view(a@)[i as int] != str_seq_view(b@)[i as int]);
            return false;
        }
        i += 1;
    }
    assert(str_seq_view(a@) =~= str_seq_view(b@));
    true
}

/// Are the two value lists equal, element by element?
pub fn values_equal_all(a: &Vec<Value>, b: &Vec<Value>) -> (r: bool)
    ensures
        r == (values_view(a@) == values_view(b@)),
    decreases a, 1int,
{
    if a.len() != b.len() {
        assert(values_view(a@).len() != values_view(b@).len());
        return false;
    }
    let mut i: usize = 0;
    while i < a.len()
        invariant
            a.len() == b.len(),
            0 <= i <= a.len(),
            forall|k: int| 0 <= k < i ==> value_view(a@[k]) == value_view(b@[k]),
        decreases a.len() - i,
    {
        proof {
            assert(decreases_to!(*a => a@[i as int]));
        }
        if !values_equal(&a[i], &b[i]) {
            assert(values_view(a@)[i as int] != values_view(b@)[i as int]);
            return false;
        }
        i += 1;
    }
    assert(values_view(a@) =~= values_view(b@));
    true
}

fn records_equal(a: &Vec<(String, Value)>, b: &Vec<(String, Value)>) -> (r: bool)
    ensures
        r == (record_view(a@) == record_view(b@)),
    decreases a, 1int,
{
    if a.len() != b.len() {
        assert(record_view(a@).len() != record_view(b@).len());
        return false;
    }
    let mut i: usize = 0;
    while i < a.len()
        invariant
            a.len() == b.len(),
            0 <= i <= a.len(),
            forall|k: int| 0 <= k < i ==> #[trigger] record_view(a@)[k] == record_view(b@)[k],
        decreases a.len() - i,
    {
        proof {
            assert(decreases_to!(*a => a@[i as int]));
            assert(decreases_to!(a@[i as int] => a@[i as int].1));
        }
        if a[i].0 != b[i].0 || !values_equal(&a[i].1, &b[i].1) {
            assert(record_view(a@)[i as int] != record_view(b@)[i as int]);
            return false;
        }
        assert(record_view(a@)[i as int] == record_view(b@)[i as int]);
        i += 1;
    }
    assert(record_view(a@) =~= record_view(b@));
    true
}

/// Are the two values equal (by their views)?
pub fn values_equal(a: &Value, b: &Value) -> (r: bool)
    ensures
        r == (a@ == b@),
    decreases a, 0int,
{
    proof {
        lemma_value_lists(*a);
        lemma_value_lists(*b);
    }
    match (a, b) {
        (Value::Int(x), Value::Int(y)) => *x == *y,
        (Value::Real(x), Value::Real(y)) => *x == *y,
        (Value::Bool(x), Value::Bool(y)) => *x == *y,
        (Value::Str(x), Value::Str(y)) => *x == *y,
        (Value::Enum { enum_name: n1, variant: v1, fields: f1 }, Value::Enum { enum_name: n2, variant: v2, fields: f2 }) => {
            proof {
                assert(decreases_to!(*a => a->fields));
            }
            *n1 == *n2 && *v1 == *v2 && values_equal_all(f1, f2)
        },
        (Value::SeqInt(x), Value::SeqInt(y)) => i64s_equal(x, y),
        (Value::SeqBool(x), Value::SeqBool(y)) => bools_equal(x, y),
        (Value::SeqStr(x), Value::SeqStr(y)) => strs_equal(x, y),
        (Value::SeqEnum(x), Value::SeqEnum(y)) => {
            proof {
                assert(decreases_to!(*a => a->SeqEnum_0));
            }
            values_equal_all(x, y)
        },
        (Value::SeqComposite(x), Value::SeqComposite(y)) => {
            if x.len() != y.len() {
                assert(records_view(x@).len() != records_view(y@).len());
                return false;
            }
            let mut i: usize = 0;
            while i < x.len()
                invariant
                    x.len() == y.len(),
                    0 <= i <= x.len(),
                    *a == Value::SeqComposite(*x),
                    a@ == ValueV::SeqComposite(records_view(x@)),
                    b@ == ValueV::SeqComposite(records_view(y@)),
                    forall|k: int| 0 <= k < i ==> record_view(x@[k]@) == record_view(y@[k]@),
                decreases x.len() - i,
            {
                proof {
                    assert(decreases_to!(*a => a->SeqComposite_0));
                    assert(decreases_to!(a->SeqComposite_0 => x@[i as int]));
                }
                if !records_equal(&x[i], &y[i]) {
                    assert(records_view(x@)[i as int] != records_view(y@)[i as int]);
                    return false;
                }
                i += 1;
            }
            assert(records_view(x@) =~= records_view(y@));
            true
        },
        (Value::SetInt(x), Value::SetInt(y)) => i64s_equal(x, y),
        (Value::SetBool(x), Value::SetBool(y)) => bools_equal(x, y),
        (Value::SetStr(x), Value::SetStr(y)) => strs_equal(x, y),
        (Value::Composite(x), Value::Composite(y)) => {
            proof {
                assert(decreases_to!(*a => a->Composite_0));
            }
            records_equal(x, y)
        },
        _ => false,
    }
}

// ───────────────────────────── environments ─────────────────────────────

/// The value bound to `k`: the first binding of `k` in `env`.
pub open spec fn env_get(env: Seq<(Seq<char>, ValueV)>, k: Seq<char>) -> Option<ValueV>
    decreases env.len(),
{
    if env.len() == 0 {
        None
    } else if env[0].0 == k {
        Some(env[0].1)
    } else {
        env_get(env.drop_first(), k)
    }
}

/// The index of the first binding of `k`, or `-1`.
pub open spec fn env_index(env: Seq<(Seq<char>, ValueV)>, k: Seq<char>) -> int
    decreases env.len(),
{
    if env.len() == 0 {
        -1
    } else if env[0].0 == k {
        0
    } else {
        let i = env_index(env.drop_first(), k);
        if i < 0 {
            -1
        } else {
            i + 1
        }
    }
}

/// `env` with `k` bound to `v`: the first binding of `k` replaced, or a
/// new binding at the end.
pub open spec fn env_set(env: Seq<(Seq<char>, ValueV)>, k: Seq<char>, v: ValueV) -> Seq<(Seq<char>, ValueV)> {
    let i = env_index(env, k);
    if i < 0 {
        env.push((k, v))
    } else {
        env.update(i, (k, v))
    }
}

pub proof fn lemma_env_index(env: Seq<(Seq<char>, ValueV)>, k: Seq<char>)
    ensures
        -1 <= env_index(env, k) < env.len(),
        env_index(env, k) >= 0 ==> env[env_index(env, k)].0 == k && env_get(env, k) == Some(env[env_index(env, k)].1)
            && forall|j: int| 0 <= j < env_index(env, k) ==> env[j].0 != k,
        env_index(env, k) < 0 ==> env_get(env, k) is None && forall|j: int| 0 <= j < env.len() ==> env[j].0 != k,
    decreases env.len(),
{
    if env.len() > 0 && env[0].0 != k {
        lemma_env_index(env.drop_first(), k);
        let i = env_index(env.drop_first(), k);
        assert forall|j: int| 1 <= j < env.len() implies env[j] == env.drop_first()[j - 1] by {}
    }
}

/// The index of the first binding of `k`.
pub fn env_find(env: &Vec<(String, Value)>, k: &String) -> (r: Option<usize>)
    ensures
        match r {
            Some(i) => i as int == env_index(record_view(env@), k@),
            None => env_index(record_view(env@), k@) < 0,
        },
{
    let ghost ev = record_view(env@);
    proof {
        lemma_env_index(ev, k@);
    }
    let mut i: usize = 0;
    while i < env.len()
        invariant
            0 <= i <= env.len(),
            ev == record_view(env@),
            forall|j: int| 0 <= j < i ==> ev[j].0 != k@,
            -1 <= env_index(ev, k@) < ev.len(),
            env_index(ev, k@) >= 0 ==> ev[env_index(ev, k@)].0 == k@ && forall|j: int|
                0 <= j < env_index(ev, k@) ==> ev[j].0 != k@,
            env_index(ev, k@) < 0 ==> forall|j: int| 0 <= j < ev.len() ==> ev[j].0 != k@,
        decreases env.len() - i,
    {
        assert(ev[i as int].0 == env@[i as int].0@);
        if env[i].0 == *k {
            return Some(i);
        }
        i += 1;
    }
    None
}

/// Bind `k` to `v` in `env`; see `env_set`.
pub fn env_insert(env: &mut Vec<(String, Value)>, k: String, v: Value)
    ensures
        record_view(final(env)@) == env_set(record_view(old(env)@), k@, v@),
{
    let ghost ev = record_view(env@);
    let ghost kv = k@;
    let ghost vv = v@;
    proof {
        lemma_env_index(ev, kv);
    }
    match env_find(env, &k) {
        Some(i) => {
            env.set(i, (k, v));
            assert(record_view(env@) =~= ev.update(i as int, (kv, vv)));
        },
        None => {
            env.push((k, v));
            assert(record_view(env@) =~= ev.push((kv, vv)));
        },
    }
}

} // verus!
