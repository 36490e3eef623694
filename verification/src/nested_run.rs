//! Driving `run(F, init)` one tick at a time. Each tick the caller asks the
//! solver about `F` with the current state given (`given`) and hands the
//! model back (`advance`), or reports that the query failed or was
//! unsatisfiable; the run ends when the model sets `halt`, and gives the
//! state and the effects of every tick before the halting one.
use vstd::prelude::*;
use vstd::string::StringExecFns;
use crate::ast::opt_str_view;
use crate::codec::{effects_view, Effect, EffectV};
use crate::collect::{collect_dispatchable_effects_cached, dispatchable, orders_kept, OrderCache};
use crate::nested::{
    check_shape, coerce_init, coerced, effects_channel, effects_var_name, run_error_view, shape_error, shape_ok,
    RunError, RunErrorV,
};
use crate::program::{find_schema, Program};
use crate::text::{concat_str, decimal, usize_decimal};
use crate::value::{clone_value, env_find, env_get, lemma_env_index, record_view, Value, ValueV};

verus! {

/// A run of a nested FSM in progress.
pub struct NestedRun {
    pub fsm: String,
    /// The state variable the tick reads, and the one it writes.
    pub input: String,
    pub output: String,
    /// The state type.
    pub ty: String,
    /// The FSM's effects channel, if it has one.
    pub effects_var: Option<String>,
    pub current: Value,
    /// The effects of the ticks run so far.
    pub captured: Vec<Effect>,
    pub step: usize,
    pub max_steps: usize,
    /// The dispatch order kept for each shape of the run.
    pub orders: OrderCache,
}

/// What one model does to a run: the next state, or the end.
pub open spec fn advanced(
    schemas: Seq<crate::ast::SchemaDeclV>,
    o: NestedRun,
    f: NestedRun,
    bv: Seq<(Seq<char>, ValueV)>,
    r: Result<bool, RunError>,
) -> bool {
    match env_get(bv, "halt"@) {
        None => r matches Err(e) && run_error_view(e) == (RunErrorV::MissingBinding { fsm: o.fsm@, name: "halt"@, step: o.step as nat }),
        Some(ValueV::Bool(true)) => r == Ok::<bool, RunError>(true) && f == o,
        Some(ValueV::Bool(false)) => match env_get(bv, o.output@) {
            None => r matches Err(e) && run_error_view(e) == (RunErrorV::MissingBinding { fsm: o.fsm@, name: o.output@, step: o.step as nat }),
            Some(next) => {
                &&& r == Ok::<bool, RunError>(false)
                &&& f.current@ == next
                &&& f.step == o.step + 1
                &&& f.fsm == o.fsm && f.input == o.input && f.output == o.output && f.ty == o.ty
                &&& f.effects_var == o.effects_var && f.max_steps == o.max_steps
                &&& f.orders.wf()
                &&& match o.effects_var {
                    None => f.captured@ == o.captured@ && f.orders == o.orders,
                    Some(ev) => exists|t: Seq<EffectV>|
                        #[trigger] dispatchable(schemas, o.fsm@, bv, Some(ev@), t) && effects_view(f.captured@) == effects_view(o.captured@) + t
                            && orders_kept(schemas, o.fsm@, bv, Some(ev@), o.orders.entries@, f.orders.entries@, t),
                }
            },
        },
        Some(other) => r matches Err(e) && run_error_view(e) == (RunErrorV::HaltNotBool { fsm: o.fsm@, step: o.step as nat, got: other }),
    }
}

impl NestedRun {
    /// Starts `run(F, init)`: `F` must be a drivable FSM (see
    /// `validate_run_target`) and `init` must coerce to its state type.
    pub fn start(rt: &Program, fsm_name: &str, init: &Value, max_steps: usize) -> (r: Result<NestedRun, RunError>)
        ensures
            match find_schema(rt.schemas_v(), fsm_name@) {
                None => r matches Err(e) && run_error_view(e) == RunErrorV::UnknownFsm(fsm_name@),
                Some(s) => match r {
                    Ok(run) => {
                        &&& shape_ok(s, (run.input@, run.output@, run.ty@))
                        &&& coerced(rt.enums_v(), run.ty@, init@) == Some(run.current@)
                        &&& opt_str_view(run.effects_var) == effects_channel(s.body)
                        &&& run.fsm@ == fsm_name@ && run.step == 0 && run.captured@.len() == 0 && run.max_steps == max_steps
                        &&& run.orders.wf() && run.orders.entries@.len() == 0
                    },
                    Err(e) => shape_error(s, fsm_name@, run_error_view(e)) || exists|p: (Seq<char>, Seq<char>, Seq<char>)|
                        #[trigger] shape_ok(s, p) && coerced(rt.enums_v(), p.2, init@) is None && run_error_view(e) == (RunErrorV::BadInit {
                            fsm: fsm_name@,
                            ty: p.2,
                            got: init@,
                        }),
                },
            },
    {
        let name = String::from_str(fsm_name);
        let schema = match rt.get_schema(&name) {
            Some(s) => s,
            None => {
                return Err(RunError::UnknownFsm(name));
            },
        };
        let pair = match check_shape(schema, fsm_name) {
            Ok(p) => p,
            Err(e) => {
                return Err(e);
            },
        };
        let effects_var = effects_var_name(schema);
        let current = match coerce_init(rt, fsm_name, &pair.ty, init) {
            Ok(v) => v,
            Err(e) => {
                assert(shape_ok(schema@, crate::nested::pair_view(pair)));
                return Err(e);
            },
        };
        Ok(NestedRun {
            fsm: name,
            input: pair.input,
            output: pair.output,
            ty: pair.ty,
            effects_var,
            current,
            captured: Vec::new(),
            step: 0,
            max_steps,
            orders: OrderCache::new(),
        })
    }

    /// Whether the run has used up its ticks.
    pub fn exhausted(&self) -> (r: bool)
        ensures
            r == (self.step >= self.max_steps),
    {
        self.step >= self.max_steps
    }

    /// The error of a run that used up its ticks without halting.
    pub fn out_of_steps(&self) -> (e: RunError)
        ensures
            run_error_view(e) == (RunErrorV::MaxItersExceeded { fsm: self.fsm@, max_steps: self.max_steps as nat }),
    {
        RunError::MaxItersExceeded { fsm: self.fsm.clone(), max_steps: self.max_steps }
    }

    /// The error of a tick whose solve was unsatisfiable.
    pub fn unsat(&self) -> (e: RunError)
        ensures
            run_error_view(e) == (RunErrorV::Unsat { fsm: self.fsm@, step: self.step as nat }),
    {
        RunError::Unsat { fsm: self.fsm.clone(), step: self.step }
    }

    /// The error of a tick whose query failed with message `msg`.
    pub fn query_failed(&self, msg: &str) -> (e: RunError)
        ensures
            run_error_view(e) == RunErrorV::Internal("run("@ + self.fsm@ + ", ..) step "@ + decimal(self.step as nat) + ": "@ + msg@),
    {
        let a = concat_str(&String::from_str("run("), self.fsm.as_str());
        let b = concat_str(&a, ", ..) step ");
        let c = concat_str(&b, usize_decimal(self.step).as_str());
        let d = concat_str(&c, ": ");
        RunError::Internal(concat_str(&d, msg))
    }

    /// What the next tick is given: the current state under the input name.
    pub fn given(&self) -> (r: Vec<(String, Value)>)
        ensures
            record_view(r@) == seq![(self.input@, self.current@)],
    {
        let mut g: Vec<(String, Value)> = Vec::new();
        g.push((self.input.clone(), clone_value(&self.current)));
        assert(record_view(g@) =~= seq![(self.input@, self.current@)]);
        g
    }

    /// Takes the model of a satisfied tick; see `advanced`. `Ok(true)`: the
    /// run halted and `current` is its final state; `Ok(false)`: the next
    /// tick may run. The effects of a halting tick are not kept; where the
    /// effects channel holds no sequence, the tick's effects are ordered
    /// with a generator seeded from `seed`, and an order drawn for a shape
    /// with edges is kept in `orders` for the later ticks of that shape.
    pub fn advance(&mut self, rt: &Program, bindings: &Vec<(String, Value)>, seed: u64) -> (r: Result<bool, RunError>)
        requires
            old(self).step < old(self).max_steps,
            old(self).orders.wf(),
        ensures
            advanced(rt.schemas_v(), *old(self), *final(self), record_view(bindings@), r),
    {
        let ghost bv = record_view(bindings@);
        let halt_key = String::from_str("halt");
        proof {
            lemma_env_index(bv, halt_key@);
        }
        let halt = match env_find(bindings, &halt_key) {
            None => {
                return Err(RunError::MissingBinding { fsm: self.fsm.clone(), name: halt_key, step: self.step });
            },
            Some(i) => match &bindings[i].1 {
                Value::Bool(b) => *b,
                other => {
                    return Err(RunError::HaltNotBool { fsm: self.fsm.clone(), step: self.step, got: clone_value(other) });
                },
            },
        };
        if halt {
            return Ok(true);
        }
        let ghost s0 = *self;
        if let Some(ev) = &self.effects_var {
            let tick = collect_dispatchable_effects_cached(rt, self.fsm.as_str(), bindings, Some(ev.as_str()), seed, &mut self.orders);
            let mut k: usize = 0;
            let ghost base = effects_view(self.captured@);
            while k < tick.len()
                invariant
                    0 <= k <= tick.len(),
                    effects_view(self.captured@) == base + effects_view(tick@).take(k as int),
                    self.step == s0.step && self.max_steps == s0.max_steps && self.fsm == s0.fsm && self.input == s0.input,
                    self.output == s0.output && self.ty == s0.ty && self.effects_var == s0.effects_var && self.current == s0.current,
                    self.orders.wf(),
                    orders_kept(rt.schemas_v(), s0.fsm@, bv, Some(ev@), s0.orders.entries@, self.orders.entries@, effects_view(tick@)),
                decreases tick.len() - k,
            {
                let ghost prev = effects_view(self.captured@);
                self.captured.push(crate::codec::clone_effect(&tick[k]));
                assert(effects_view(self.captured@) =~= prev.push(effects_view(tick@)[k as int]));
                assert(effects_view(self.captured@) =~= base + effects_view(tick@).take(k + 1));
                k += 1;
            }
            assert(effects_view(tick@).take(tick.len() as int) =~= effects_view(tick@));
            assert(dispatchable(rt.schemas_v(), s0.fsm@, bv, Some(ev@), effects_view(tick@)));
            assert(effects_view(self.captured@) == effects_view(s0.captured@) + effects_view(tick@));
        }
        proof {
            lemma_env_index(bv, self.output@);
        }
        match env_find(bindings, &self.output) {
            None => Err(RunError::MissingBinding { fsm: self.fsm.clone(), name: self.output.clone(), step: self.step }),
            Some(i) => {
                self.current = clone_value(&bindings[i].1);
                self.step = self.step + 1;
                Ok(false)
            },
        }
    }
}

} // verus!
