//! The top-level tick loop as a state machine. Each tick the caller asks
//! the solver about the main FSM with `solve_view` given, hands the model to
//! `after_solve`, dispatches the effects it returns, and hands the results
//! to `after_dispatch`. The loop ends on `Exit`, at a fixed point (a tick
//! that changed no state, emitted no effect and wrote no world field), on
//! an unsatisfiable tick, or when the ticks run out.
use vstd::prelude::*;
use vstd::string::StringExecFns;
use crate::ast::{body_item_view, items_view, lemma_schema_lists, BodyItem, BodyItemV, SchemaDeclV};
use crate::codec::{effect_results_to_value, effects_view, result_value, result_view, Effect, EffectResult, EffectV, EffectResultV};
use crate::collect::{collect_dispatchable_effects_cached, dispatchable, orders_kept, OrderCache};
use crate::fsm::{opt_view, LoopResult, MainShape};
use crate::program::{enum_view, find_enum, find_schema, EnumDeclV, Program};
use crate::text::{concat_str, decimal, has_prefix, starts_with, str_to_chars, chars_to_string, slice_chars, str_is, usize_decimal};
use crate::value::{clone_record, clone_value, env_find, env_get, env_index, env_insert, env_set, lemma_env_index, record_view, values_equal, RealNum, Value, ValueV};

verus! {

// ───────────────────────────── the starting point ─────────────────────────────

/// The first state: the state enum's first variant, when it has no payload.
pub open spec fn seed_value(enums: Seq<EnumDeclV>, st: Option<Seq<char>>) -> Option<ValueV> {
    match st {
        None => None,
        Some(t) => match find_enum(enums, t) {
            None => None,
            Some(e) => if e.variants.len() > 0 && e.variants[0].field_types.len() == 0 {
                Some(ValueV::Enum { enum_name: t, variant: e.variants[0].name, fields: Seq::empty() })
            } else {
                None
            },
        },
    }
}

/// The value a world field of type `ty` starts at, for the primitive types.
pub open spec fn default_of(ty: Seq<char>) -> Option<ValueV> {
    if ty == "Int"@ {
        Some(ValueV::Int(0))
    } else if ty == "Bool"@ {
        Some(ValueV::Bool(false))
    } else if ty == "String"@ {
        Some(ValueV::Str(Seq::empty()))
    } else if ty == "Real"@ {
        Some(ValueV::Real(RealNum::Bits(0)))
    } else {
        None
    }
}

/// The world with a default for each primitive field among the first `n`
/// items of the world type that it does not hold yet, under `world.name`.
pub open spec fn world_defaults(w: Seq<(Seq<char>, ValueV)>, items: Seq<BodyItemV>, n: nat) -> Seq<(Seq<char>, ValueV)>
    decreases n,
{
    if n == 0 || n > items.len() {
        w
    } else {
        let prev = world_defaults(w, items, (n - 1) as nat);
        match items[n - 1] {
            BodyItemV::Membership { name, ty, .. } => {
                let key = "world."@ + name;
                if env_get(prev, key) is Some {
                    prev
                } else {
                    match default_of(ty) {
                        Some(d) => env_set(prev, key, d),
                        None => prev,
                    }
                }
            },
            _ => prev,
        }
    }
}

pub open spec fn initial_world(schemas: Seq<SchemaDeclV>, world_type: Option<Seq<char>>, w: Seq<(Seq<char>, ValueV)>) -> Seq<(Seq<char>, ValueV)> {
    match world_type {
        None => w,
        Some(wt) => match find_schema(schemas, wt) {
            None => w,
            Some(ws) => world_defaults(w, ws.body, ws.body.len()),
        },
    }
}

/// The state of the tick loop between calls.
pub struct TickLoop {
    /// The world snapshot: each `world.field` with its value, each key once.
    pub world: Vec<(String, Value)>,
    /// Every binding of the last tick's model, for the `_name` reads.
    pub prev_values: Vec<(String, Value)>,
    pub last_results: Vec<EffectResult>,
    pub current_state: Option<Value>,
    pub steps: usize,
    pub max_steps: usize,
    /// The last solved tick changed a state, emitted an effect or wrote
    /// the world.
    pub active: bool,
    /// The dispatch order kept for each shape of the run.
    pub orders: OrderCache,
}

pub open spec fn opt_value_view(v: Option<Value>) -> Option<ValueV> {
    match v {
        Some(x) => Some(x@),
        None => None,
    }
}

fn default_for(ty: &String) -> (r: Option<Value>)
    ensures
        opt_value_view(r) == default_of(ty@),
{
    if str_is(ty, "Int") {
        Some(Value::Int(0))
    } else if str_is(ty, "Bool") {
        Some(Value::Bool(false))
    } else if str_is(ty, "String") {
        let s = String::new();
        assert(s@ =~= Seq::<char>::empty());
        Some(Value::Str(s))
    } else if str_is(ty, "Real") {
        Some(Value::Real(RealNum::Bits(0)))
    } else {
        None
    }
}

fn seed_state(rt: &Program, shape: &MainShape) -> (r: Option<Value>)
    ensures
        opt_value_view(r) == seed_value(rt.enums_v(), opt_view(shape.state_type)),
{
    let st = match &shape.state_type {
        Some(t) => t,
        None => {
            return None;
        },
    };
    let e = match rt.get_enum(st) {
        Some(e) => e,
        None => {
            return None;
        },
    };
    assert(enum_view(*e).variants.len() == e.variants.len());
    if e.variants.len() > 0 {
        assert(enum_view(*e).variants[0] == crate::program::variant_view(e.variants@[0]));
    }
    if e.variants.len() == 0 || e.variants[0].fields.len() != 0 {
        return None;
    }
    let fields: Vec<Value> = Vec::new();
    let v = Value::Enum { enum_name: st.clone(), variant: e.variants[0].name.clone(), fields };
    proof {
        crate::value::lemma_value_lists(v);
        assert(crate::value::values_view(fields@) =~= Seq::<ValueV>::empty());
    }
    Some(v)
}

impl TickLoop {
    /// The loop before its first tick: the first state seeded (see
    /// `seed_value`) and the world given defaults (see `initial_world`).
    pub fn new(rt: &Program, shape: &MainShape, max_steps: usize, world: Vec<(String, Value)>) -> (r: TickLoop)
        ensures
            record_view(r.world@) == initial_world(rt.schemas_v(), opt_view(shape.world_type), record_view(world@)),
            opt_value_view(r.current_state) == seed_value(rt.enums_v(), opt_view(shape.state_type)),
            r.prev_values@.len() == 0,
            r.last_results@.len() == 0,
            r.steps == 0,
            r.max_steps == max_steps,
            r.active,
            r.orders.wf(),
            r.orders.entries@.len() == 0,
    {
        let mut w = world;
        let ghost w0 = record_view(w@);
        if let Some(wt) = &shape.world_type {
            if let Some(ws) = rt.get_schema(wt) {
                proof {
                    lemma_schema_lists(*ws);
                }
                let ghost iv = items_view(ws.body@);
                let mut i: usize = 0;
                while i < ws.body.len()
                    invariant
                        0 <= i <= ws.body.len(),
                        iv == items_view(ws.body@),
                        record_view(w@) == world_defaults(w0, iv, i as nat),
                    decreases ws.body.len() - i,
                {
                    assert(iv[i as int] == body_item_view(ws.body@[i as int]));
                    if let BodyItem::Membership { name, ty, .. } = &ws.body[i] {
                        let key = concat_str(&String::from_str("world."), name.as_str());
                        proof {
                            reveal_strlit("world.");
                            lemma_env_index(record_view(w@), key@);
                        }
                        if env_find(&w, &key).is_none() {
                            if let Some(d) = default_for(ty) {
                                env_insert(&mut w, key, d);
                            }
                        }
                    }
                    i += 1;
                }
            }
        }
        let current_state = seed_state(rt, shape);
        TickLoop { world: w, prev_values: Vec::new(), last_results: Vec::new(), current_state, steps: 0, max_steps, active: true, orders: OrderCache::new() }
    }
}


// ───────────────────────────── what a tick is given ─────────────────────────────

/// `v` with each of the first `n` bindings of `w` whose key begins with
/// `prefix` bound again under its key without the prefix.
pub open spec fn strip_keys(
    v: Seq<(Seq<char>, ValueV)>,
    w: Seq<(Seq<char>, ValueV)>,
    prefix: Seq<char>,
    n: nat,
) -> Seq<(Seq<char>, ValueV)>
    decreases n,
{
    if n == 0 || n > w.len() {
        v
    } else {
        let prev = strip_keys(v, w, prefix, (n - 1) as nat);
        if has_prefix(w[n - 1].0, prefix) {
            env_set(prev, w[n - 1].0.skip(prefix.len() as int), w[n - 1].1)
        } else {
            prev
        }
    }
}

/// `v` with `name.field` bound to the value of each of the first `n`
/// bindings `stripped.field` of the last tick.
pub open spec fn prev_fields(
    v: Seq<(Seq<char>, ValueV)>,
    prev: Seq<(Seq<char>, ValueV)>,
    stripped: Seq<char>,
    name: Seq<char>,
    n: nat,
) -> Seq<(Seq<char>, ValueV)>
    decreases n,
{
    if n == 0 || n > prev.len() {
        v
    } else {
        let acc = prev_fields(v, prev, stripped, name, (n - 1) as nat);
        let p = stripped + "."@;
        if has_prefix(prev[n - 1].0, p) {
            env_set(acc, name + "."@ + prev[n - 1].0.skip(p.len() as int), prev[n - 1].1)
        } else {
            acc
        }
    }
}

/// `v` with each `_x` member among the first `n` items bound to the last
/// tick's `x`, field by field for a record.
pub open spec fn prev_pins(
    v: Seq<(Seq<char>, ValueV)>,
    items: Seq<BodyItemV>,
    prev: Seq<(Seq<char>, ValueV)>,
    n: nat,
) -> Seq<(Seq<char>, ValueV)>
    decreases n,
{
    if n == 0 || n > items.len() {
        v
    } else {
        let acc = prev_pins(v, items, prev, (n - 1) as nat);
        match items[n - 1] {
            BodyItemV::Membership { name, .. } => if has_prefix(name, "_"@) {
                let s = name.skip(1);
                let a = match env_get(prev, s) {
                    Some(x) => env_set(acc, name, x),
                    None => acc,
                };
                prev_fields(a, prev, s, name, prev.len())
            } else {
                acc
            },
            _ => acc,
        }
    }
}

/// One of the first `n` items is a member whose name begins with `_`.
pub open spec fn underscored(items: Seq<BodyItemV>, n: nat) -> bool
    decreases n,
{
    if n == 0 || n > items.len() {
        false
    } else {
        underscored(items, (n - 1) as nat) || match items[n - 1] {
            BodyItemV::Membership { name, .. } => has_prefix(name, "_"@),
            _ => false,
        }
    }
}

/// The `last_results` value of a list of effect results.
pub open spec fn last_results_value(rs: Seq<EffectResult>) -> ValueV {
    ValueV::SeqEnum(Seq::new(rs.len(), |i: int| result_value(result_view(rs[i]))))
}

/// What a tick of the loop `t` is given: the world (with the FSM's own
/// install keys also under `param.field` when it has install parameters),
/// the last results, the `_x` reads of the last tick with
/// `is_first_tick`, and the current state.
pub open spec fn tick_given(schemas: Seq<SchemaDeclV>, shape: MainShape, t: TickLoop) -> Seq<(Seq<char>, ValueV)> {
    let w = record_view(t.world@);
    let v0 = if shape.install_params@.len() == 0 {
        w
    } else {
        strip_keys(w, w, shape.claim_name@ + "."@, w.len())
    };
    let v1 = match shape.last_results_var {
        Some(lr) => env_set(v0, lr@, last_results_value(t.last_results@)),
        None => v0,
    };
    let pv = record_view(t.prev_values@);
    let v2 = match find_schema(schemas, shape.claim_name@) {
        None => v1,
        Some(c) => {
            let p = prev_pins(v1, c.body, pv, c.body.len());
            if underscored(c.body, c.body.len()) {
                env_set(p, "is_first_tick"@, ValueV::Bool(pv.len() == 0))
            } else {
                p
            }
        },
    };
    match (shape.state_var, t.current_state) {
        (Some(sv), Some(c)) => env_set(v2, sv@, c@),
        _ => v2,
    }
}

/// `s` without its prefix `p`, if it has it.
fn strip_str_prefix(s: &String, p: &str) -> (r: Option<String>)
    ensures
        match r {
            Some(t) => has_prefix(s@, p@) && t@ == s@.skip(p@.len() as int),
            None => !has_prefix(s@, p@),
        },
{
    if !starts_with(s, p) {
        return None;
    }
    let a = str_to_chars(s.as_str());
    let n = str_to_chars(p).len();
    let b = slice_chars(&a, n, a.len());
    let t = chars_to_string(&b);
    assert(t@ =~= s@.skip(p@.len() as int));
    Some(t)
}

fn strip_into(v: &mut Vec<(String, Value)>, w: &Vec<(String, Value)>, prefix: &String)
    ensures
        record_view(final(v)@) == strip_keys(record_view(old(v)@), record_view(w@), prefix@, w@.len()),
{
    let ghost v0 = record_view(v@);
    let ghost wv = record_view(w@);
    let mut i: usize = 0;
    while i < w.len()
        invariant
            0 <= i <= w.len(),
            wv == record_view(w@),
            record_view(v@) == strip_keys(v0, wv, prefix@, i as nat),
        decreases w.len() - i,
    {
        assert(wv[i as int] == (w@[i as int].0@, w@[i as int].1@));
        if let Some(k) = strip_str_prefix(&w[i].0, prefix.as_str()) {
            env_insert(v, k, clone_value(&w[i].1));
        }
        i += 1;
    }
}

fn pin_prev_fields(v: &mut Vec<(String, Value)>, prev: &Vec<(String, Value)>, stripped: &String, name: &String)
    ensures
        record_view(final(v)@) == prev_fields(record_view(old(v)@), record_view(prev@), stripped@, name@, prev@.len()),
{
    let ghost v0 = record_view(v@);
    let ghost pv = record_view(prev@);
    let p = concat_str(stripped, ".");
    let head = concat_str(name, ".");
    proof {
        reveal_strlit(".");
    }
    let mut i: usize = 0;
    while i < prev.len()
        invariant
            0 <= i <= prev.len(),
            pv == record_view(prev@),
            p@ == stripped@ + "."@,
            head@ == name@ + "."@,
            record_view(v@) == prev_fields(v0, pv, stripped@, name@, i as nat),
        decreases prev.len() - i,
    {
        assert(pv[i as int] == (prev@[i as int].0@, prev@[i as int].1@));
        if let Some(field) = strip_str_prefix(&prev[i].0, p.as_str()) {
            env_insert(v, concat_str(&head, field.as_str()), clone_value(&prev[i].1));
        }
        i += 1;
    }
}

/// Pins the `_x` members of `items` from the last tick; says whether there is one.
fn pin_prev(v: &mut Vec<(String, Value)>, items: &Vec<BodyItem>, prev: &Vec<(String, Value)>) -> (r: bool)
    ensures
        record_view(final(v)@) == prev_pins(record_view(old(v)@), items_view(items@), record_view(prev@), items@.len()),
        r == underscored(items_view(items@), items@.len()),
{
    let ghost v0 = record_view(v@);
    let ghost iv = items_view(items@);
    let ghost pv = record_view(prev@);
    let mut seen = false;
    let mut i: usize = 0;
    while i < items.len()
        invariant
            0 <= i <= items.len(),
            iv == items_view(items@),
            pv == record_view(prev@),
            record_view(v@) == prev_pins(v0, iv, pv, i as nat),
            seen == underscored(iv, i as nat),
        decreases items.len() - i,
    {
        assert(iv[i as int] == body_item_view(items@[i as int]));
        if let BodyItem::Membership { name, .. } = &items[i] {
            proof {
                reveal_strlit("_");
            }
            if let Some(s) = strip_str_prefix(name, "_") {
                seen = true;
                proof {
                    lemma_env_index(pv, s@);
                }
                if let Some(j) = env_find(prev, &s) {
                    assert(pv[j as int] == (prev@[j as int].0@, prev@[j as int].1@));
                    env_insert(v, name.clone(), clone_value(&prev[j].1));
                }
                pin_prev_fields(v, prev, &s, name);
            }
        }
        i += 1;
    }
    seen
}

impl TickLoop {
    /// What the next tick is given; see `tick_given`.
    pub fn solve_view(&self, rt: &Program, shape: &MainShape) -> (r: Vec<(String, Value)>)
        ensures
            record_view(r@) == tick_given(rt.schemas_v(), *shape, *self),
    {
        let mut v = clone_record(&self.world);
        if shape.install_params.len() > 0 {
            let prefix = concat_str(&shape.claim_name, ".");
            proof {
                reveal_strlit(".");
            }
            strip_into(&mut v, &self.world, &prefix);
        }
        if let Some(lr) = &shape.last_results_var {
            let val = effect_results_to_value(self.last_results.as_slice());
            assert(val@ == last_results_value(self.last_results@));
            env_insert(&mut v, lr.clone(), val);
        }
        if let Some(claim) = rt.get_schema(&shape.claim_name) {
            proof {
                lemma_schema_lists(*claim);
            }
            let sees = pin_prev(&mut v, &claim.body, &self.prev_values);
            if sees {
                let k = String::from_str("is_first_tick");
                proof {
                    reveal_strlit("is_first_tick");
                }
                env_insert(&mut v, k, Value::Bool(self.prev_values.len() == 0));
            }
        }
        match (&shape.state_var, &self.current_state) {
            (Some(sv), Some(c)) => {
                env_insert(&mut v, sv.clone(), clone_value(c));
            },
            _ => {},
        }
        v
    }
}


// ───────────────────────────── what a tick leaves ─────────────────────────────

/// The world after the first `n` bindings `world_next.X` of a model are
/// merged into it under `world.X`, and whether any of them changed it.
pub open spec fn merge_world(
    w: Seq<(Seq<char>, ValueV)>,
    bv: Seq<(Seq<char>, ValueV)>,
    n: nat,
) -> (Seq<(Seq<char>, ValueV)>, bool)
    decreases n,
{
    if n == 0 || n > bv.len() {
        (w, false)
    } else {
        let (acc, wrote) = merge_world(w, bv, (n - 1) as nat);
        if has_prefix(bv[n - 1].0, "world_next."@) {
            let key = "world."@ + bv[n - 1].0.skip(11);
            (env_set(acc, key, bv[n - 1].1), wrote || env_get(acc, key) != Some(bv[n - 1].1))
        } else {
            (acc, wrote)
        }
    }
}

/// The last tick's bindings after the first `n` bindings of a model are
/// kept: all but the `_x` reads and `is_first_tick`.
pub open spec fn keep_prev(
    prev: Seq<(Seq<char>, ValueV)>,
    bv: Seq<(Seq<char>, ValueV)>,
    n: nat,
) -> Seq<(Seq<char>, ValueV)>
    decreases n,
{
    if n == 0 || n > bv.len() {
        prev
    } else {
        let acc = keep_prev(prev, bv, (n - 1) as nat);
        let k = bv[n - 1].0;
        if has_prefix(k, "_"@) || k == "is_first_tick"@ {
            acc
        } else {
            env_set(acc, k, bv[n - 1].1)
        }
    }
}

/// The state a model moves to: `None` when the FSM has a next-state
/// variable that the model does not bind; `Some(None)` when the FSM has no
/// state.
pub open spec fn next_state(shape: MainShape, bv: Seq<(Seq<char>, ValueV)>) -> Option<Option<ValueV>> {
    match shape.state_next_var {
        None => Some(None),
        Some(sn) => match env_get(bv, sn@) {
            None => None,
            Some(x) => Some(Some(x)),
        },
    }
}

/// The tick moved the FSM to another state.
pub open spec fn state_changed(cur: Option<ValueV>, ns: Option<ValueV>) -> bool {
    match ns {
        None => false,
        Some(x) => match cur {
            Some(c) => c != x,
            None => true,
        },
    }
}

/// The error of a model that lacks the next state.
pub open spec fn missing_next_message(claim: Seq<char>, step: nat, sn: Seq<char>) -> Seq<char> {
    "FSM `"@ + claim + "` step "@ + decimal(step) + ": model has no `"@ + sn + "`"@
}

/// What a satisfied tick's model (`bv`) does to the loop `o`, leaving `f`
/// and the effects `es` to dispatch, or the error `r`.
pub open spec fn solved(
    schemas: Seq<SchemaDeclV>,
    shape: MainShape,
    o: TickLoop,
    f: TickLoop,
    bv: Seq<(Seq<char>, ValueV)>,
    r: Result<Seq<EffectV>, Seq<char>>,
) -> bool {
    match next_state(shape, bv) {
        None => shape.state_next_var matches Some(sn) && r == Err::<Seq<EffectV>, Seq<char>>(
            missing_next_message(shape.claim_name@, o.steps as nat, sn@),
        ) && f == o,
        Some(ns) => match r {
            Err(_) => false,
            Ok(es) => {
                let w = record_view(o.world@);
                let merged = if shape.world_next_var is Some {
                    merge_world(w, bv, bv.len())
                } else {
                    (w, false)
                };
                &&& dispatchable(schemas, shape.claim_name@, bv, opt_view(shape.effects_var), es)
                &&& orders_kept(schemas, shape.claim_name@, bv, opt_view(shape.effects_var), o.orders.entries@, f.orders.entries@, es)
                &&& f.orders.wf()
                &&& record_view(f.world@) == merged.0
                &&& opt_value_view(f.current_state) == match ns {
                    Some(x) => Some(x),
                    None => opt_value_view(o.current_state),
                }
                &&& record_view(f.prev_values@) == keep_prev(record_view(o.prev_values@), bv, bv.len())
                &&& f.active == (state_changed(opt_value_view(o.current_state), ns) || es.len() > 0 || merged.1)
                &&& f.last_results == o.last_results && f.steps == o.steps && f.max_steps == o.max_steps
            },
        },
    }
}

/// What taking the results `results` of a tick's effects does to the loop
/// `o`, leaving `f` and the end of the loop `r`, if it ends.
pub open spec fn dispatched(o: TickLoop, f: TickLoop, results: Seq<EffectResult>, exit_code: Option<i32>, r: Option<LoopResult>) -> bool {
    &&& f.last_results@ == results
    &&& f.steps == o.steps + 1
    &&& f.world == o.world && f.prev_values == o.prev_values
    &&& f.current_state == o.current_state && f.max_steps == o.max_steps
    &&& f.active == o.active
    &&& f.orders == o.orders
    &&& match r {
        Some(lr) => (exit_code is Some || !o.active) && loop_result_is(
            lr,
            f.steps as nat,
            opt_value_view(o.current_state),
            true,
            exit_code,
        ),
        None => exit_code is None && o.active,
    }
}

/// Law: a tick whose model keeps the state, emits no effect and writes no
/// world field ends the loop cleanly once its (empty) results are taken,
/// after exactly one more step, in that state.
pub proof fn law_stable_tick_halts(
    schemas: Seq<SchemaDeclV>,
    shape: MainShape,
    o: TickLoop,
    m: TickLoop,
    f: TickLoop,
    bv: Seq<(Seq<char>, ValueV)>,
    results: Seq<EffectResult>,
    r: Option<LoopResult>,
)
    requires
        solved(schemas, shape, o, m, bv, Ok(Seq::<EffectV>::empty())),
        next_state(shape, bv) matches Some(ns) && !state_changed(opt_value_view(o.current_state), ns),
        shape.world_next_var is Some ==> !merge_world(record_view(o.world@), bv, bv.len()).1,
        dispatched(m, f, results, None, r),
    ensures
        r matches Some(lr) && lr.halted_clean && lr.steps == o.steps + 1 && lr.exit_code is None
            && opt_value_view(lr.final_state) == opt_value_view(m.current_state),
        !f.active,
{
}

/// Law: a loop that has not used up its ticks keeps within them: after the
/// results of a tick are taken, it has run at most `max_steps` ticks.
pub proof fn law_steps_bounded(o: TickLoop, f: TickLoop, results: Seq<EffectResult>, exit_code: Option<i32>, r: Option<LoopResult>)
    requires
        o.steps < o.max_steps,
        dispatched(o, f, results, exit_code, r),
    ensures
        f.steps <= f.max_steps,
        r matches Some(lr) ==> lr.steps <= f.max_steps && lr.steps >= 1,
{
}

fn merge_into(w: &mut Vec<(String, Value)>, bindings: &Vec<(String, Value)>) -> (wrote: bool)
    ensures
        (record_view(final(w)@), wrote) == merge_world(record_view(old(w)@), record_view(bindings@), bindings@.len()),
{
    let ghost w0 = record_view(w@);
    let ghost bv = record_view(bindings@);
    let mut wrote = false;
    let mut i: usize = 0;
    proof {
        reveal_strlit("world_next.");
        reveal_strlit("world.");
    }
    while i < bindings.len()
        invariant
            0 <= i <= bindings.len(),
            bv == record_view(bindings@),
            (record_view(w@), wrote) == merge_world(w0, bv, i as nat),
            "world_next."@.len() == 11,
            "world."@ == seq!['w', 'o', 'r', 'l', 'd', '.'],
        decreases bindings.len() - i,
    {
        assert(bv[i as int] == (bindings@[i as int].0@, bindings@[i as int].1@));
        if let Some(field) = strip_str_prefix(&bindings[i].0, "world_next.") {
            let key = concat_str(&String::from_str("world."), field.as_str());
            let ghost acc = record_view(w@);
            proof {
                lemma_env_index(acc, key@);
            }
            let differs = match env_find(w, &key) {
                Some(j) => {
                    assert(acc[j as int] == (w@[j as int].0@, w@[j as int].1@));
                    !values_equal(&w[j].1, &bindings[i].1)
                },
                None => true,
            };
            if differs {
                wrote = true;
            }
            env_insert(w, key, clone_value(&bindings[i].1));
        }
        i += 1;
    }
    wrote
}

fn keep_into(prev: &mut Vec<(String, Value)>, bindings: &Vec<(String, Value)>)
    ensures
        record_view(final(prev)@) == keep_prev(record_view(old(prev)@), record_view(bindings@), bindings@.len()),
{
    let ghost p0 = record_view(prev@);
    let ghost bv = record_view(bindings@);
    let mut i: usize = 0;
    while i < bindings.len()
        invariant
            0 <= i <= bindings.len(),
            bv == record_view(bindings@),
            record_view(prev@) == keep_prev(p0, bv, i as nat),
        decreases bindings.len() - i,
    {
        assert(bv[i as int] == (bindings@[i as int].0@, bindings@[i as int].1@));
        let k = &bindings[i].0;
        if !starts_with(k, "_") && !str_is(k, "is_first_tick") {
            env_insert(prev, k.clone(), clone_value(&bindings[i].1));
        }
        i += 1;
    }
}

/// The result of a loop that stopped at `steps` ticks in state `st`.
pub open spec fn loop_result_is(lr: LoopResult, steps: nat, st: Option<ValueV>, clean: bool, code: Option<i32>) -> bool {
    &&& lr.steps == steps
    &&& opt_value_view(lr.final_state) == st
    &&& lr.halted_clean == clean
    &&& lr.exit_code == code
}

fn clone_opt_value(v: &Option<Value>) -> (r: Option<Value>)
    ensures
        opt_value_view(r) == opt_value_view(*v),
{
    match v {
        Some(x) => Some(clone_value(x)),
        None => None,
    }
}

impl TickLoop {
    /// Whether the loop has used up its ticks.
    pub fn exhausted(&self) -> (r: bool)
        ensures
            r == (self.steps >= self.max_steps),
    {
        self.steps >= self.max_steps
    }

    /// The error of a tick whose query failed with message `msg`.
    pub fn query_failed(&self, shape: &MainShape, msg: &str) -> (e: String)
        ensures
            e@ == "FSM `"@ + shape.claim_name@ + "` solve step "@ + decimal(self.steps as nat) + ": "@ + msg@,
    {
        let a = concat_str(&String::from_str("FSM `"), shape.claim_name.as_str());
        let b = concat_str(&a, "` solve step ");
        let c = concat_str(&b, usize_decimal(self.steps).as_str());
        let d = concat_str(&c, ": ");
        concat_str(&d, msg)
    }

    /// The result of a loop stopped short: by an unsatisfiable tick or by
    /// running out of ticks. `exit_code` is the exit that the dispatched
    /// effects have asked for so far.
    pub fn unfinished(&self, exit_code: Option<i32>) -> (r: LoopResult)
        ensures
            loop_result_is(r, self.steps as nat, opt_value_view(self.current_state), false, exit_code),
    {
        LoopResult { steps: self.steps, final_state: clone_opt_value(&self.current_state), halted_clean: false, exit_code }
    }

    /// Takes the model of a satisfied tick; see `solved`. On `Ok` the
    /// effects are to be dispatched in order and their results handed to
    /// `after_dispatch`. Where the effects channel holds no sequence, the
    /// effects are ordered with a generator seeded from `seed`.
    /// An order drawn for a dispatch shape with edges is kept in `orders`
    /// and used again by every later tick of that shape.
    pub fn after_solve(&mut self, rt: &Program, shape: &MainShape, bindings: &Vec<(String, Value)>, seed: u64) -> (r: Result<Vec<Effect>, String>)
        requires
            old(self).orders.wf(),
        ensures
            solved(
                rt.schemas_v(),
                *shape,
                *old(self),
                *final(self),
                record_view(bindings@),
                match r {
                    Ok(es) => Ok(effects_view(es@)),
                    Err(e) => Err(e@),
                },
            ),
    {
        let ghost bv = record_view(bindings@);
        let ghost o = *self;
        let next: Option<Value> = match &shape.state_next_var {
            None => None,
            Some(sn) => {
                proof {
                    lemma_env_index(bv, sn@);
                }
                match env_find(bindings, sn) {
                    None => {
                        let a = concat_str(&String::from_str("FSM `"), shape.claim_name.as_str());
                        let b = concat_str(&a, "` step ");
                        let c = concat_str(&b, usize_decimal(self.steps).as_str());
                        let d = concat_str(&c, ": model has no `");
                        let e = concat_str(&d, sn.as_str());
                        return Err(concat_str(&e, "`"));
                    },
                    Some(j) => {
                        assert(bv[j as int] == (bindings@[j as int].0@, bindings@[j as int].1@));
                        Some(clone_value(&bindings[j].1))
                    },
                }
            },
        };
        let effects = match &shape.effects_var {
            Some(ev) => collect_dispatchable_effects_cached(rt, shape.claim_name.as_str(), bindings, Some(ev.as_str()), seed, &mut self.orders),
            None => collect_dispatchable_effects_cached(rt, shape.claim_name.as_str(), bindings, None, seed, &mut self.orders),
        };
        let wrote = if shape.world_next_var.is_some() {
            merge_into(&mut self.world, bindings)
        } else {
            false
        };
        let mut changed = false;
        if let Some(nv) = next {
            changed = match &self.current_state {
                Some(c) => !values_equal(c, &nv),
                None => true,
            };
            self.current_state = Some(nv);
        }
        keep_into(&mut self.prev_values, bindings);
        self.active = changed || effects.len() > 0 || wrote;
        Ok(effects)
    }

    /// Takes the results of a tick's effects. `exit_code` is the exit that
    /// they have asked for, if any. The loop ends (`Some`) on an exit, or
    /// when the tick changed no state, emitted no effect and wrote no world
    /// field; else (`None`) the next tick may run.
    pub fn after_dispatch(&mut self, results: Vec<EffectResult>, exit_code: Option<i32>) -> (r: Option<LoopResult>)
        requires
            old(self).steps < old(self).max_steps,
        ensures
            dispatched(*old(self), *final(self), results@, exit_code, r),
    {
        self.last_results = results;
        self.steps = self.steps + 1;
        if exit_code.is_some() || !self.active {
            return Some(LoopResult {
                steps: self.steps,
                final_state: clone_opt_value(&self.current_state),
                halted_clean: true,
                exit_code,
            });
        }
        None
    }
}

} // verus!
