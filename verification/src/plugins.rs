//! World plugins: which background sources a program's World type asks for,
//! and what a declarative install writes back into the world. The sources
//! themselves (timers, signal handlers, file readers) run outside the library;
//! these functions decide what to start and with which fields.
use vstd::prelude::*;
use vstd::string::StringExecFns;
use crate::ast::{mapping_view, mappings_view, pins_view, Expr, ExprV, Mapping, MappingV, Pins, PinsV};
use crate::codec::{EffectResult, EffectResultV, InstallStep, InstallStepV, installs_view, results_view};
use crate::text::{concat_str, str_is};
use crate::value::{env_insert, env_set, record_view, str_seq_view, Value, ValueV};

verus! {

/// One event delivered to the scheduler by a background source.
#[derive(Debug, Clone)]
pub enum SchedulerEvent {
    /// A periodic tick; `name` identifies the source.
    Tick { name: String },
    /// The source is done for good (end of input, say).
    Closed { name: String },
}

/// What a plugin inspects to decide whether to install: the World type's
/// fields (name and type name, each name once), the event names the FSMs
/// subscribe to, and the settings read from the environment at startup.
pub struct WorldPluginCtx {
    pub world_fields: Vec<(String, String)>,
    pub fsm_event_subscriptions: Vec<String>,
    pub env_tick_ms: Option<u64>,
    pub env_clock_ms: u64,
    pub env_file_watch: Option<String>,
    pub env_file_watch_ms: u64,
    pub env_file_input: Option<String>,
}

pub open spec fn pairs_view(v: Seq<(String, String)>) -> Seq<(Seq<char>, Seq<char>)> {
    Seq::new(v.len(), |i: int| (v[i].0@, v[i].1@))
}

/// The type of the first field named `name`, if any.
pub open spec fn field_type(fields: Seq<(Seq<char>, Seq<char>)>, name: Seq<char>) -> Option<Seq<char>>
    decreases fields.len(),
{
    if fields.len() == 0 {
        None
    } else if fields[0].0 == name {
        Some(fields[0].1)
    } else {
        field_type(fields.drop_first(), name)
    }
}

pub open spec fn has_field(ctx: WorldPluginCtx, name: Seq<char>, ty: Seq<char>) -> bool {
    field_type(pairs_view(ctx.world_fields@), name) == Some(ty)
}

pub open spec fn subscribes(ctx: WorldPluginCtx, event: Seq<char>) -> bool {
    exists|i: int| 0 <= i < ctx.fsm_event_subscriptions@.len() && #[trigger] ctx.fsm_event_subscriptions@[i]@ == event
}

impl WorldPluginCtx {
    /// True iff the World declares field `name` with type `ty`.
    pub fn has_world_field(&self, name: &str, ty: &str) -> (r: bool)
        ensures
            r == has_field(*self, name@, ty@),
    {
        let ghost fv = pairs_view(self.world_fields@);
        let n = String::from_str(name);
        assert(fv.skip(0) =~= fv);
        let mut i: usize = 0;
        while i < self.world_fields.len()
            invariant
                0 <= i <= self.world_fields.len(),
                fv == pairs_view(self.world_fields@),
                n@ == name@,
                field_type(fv, name@) == field_type(fv.skip(i as int), name@),
            decreases self.world_fields.len() - i,
        {
            assert(fv.skip(i as int).drop_first() =~= fv.skip(i + 1));
            if self.world_fields[i].0 == n {
                return str_is(&self.world_fields[i].1, ty);
            }
            i += 1;
        }
        false
    }

    fn subscribes_to(&self, event: &str) -> (r: bool)
        ensures
            r == subscribes(*self, event@),
    {
        let mut i: usize = 0;
        while i < self.fsm_event_subscriptions.len()
            invariant
                0 <= i <= self.fsm_event_subscriptions.len(),
                forall|j: int| 0 <= j < i ==> self.fsm_event_subscriptions@[j]@ != event@,
            decreases self.fsm_event_subscriptions.len() - i,
        {
            if str_is(&self.fsm_event_subscriptions[i], event) {
                return true;
            }
            i += 1;
        }
        false
    }
}

/// The interrupt source: installed when the World counts interrupts in
/// `signal_received ∈ Int` or an FSM subscribes to `signal`. `Some(writes)`
/// names the fields it then owns.
pub open spec fn sigint_plan(ctx: WorldPluginCtx) -> Option<Seq<Seq<char>>> {
    let counts = has_field(ctx, "signal_received"@, "Int"@);
    if !(counts || subscribes(ctx, "signal"@)) {
        None
    } else if counts {
        Some(seq!["signal_received"@])
    } else {
        Some(Seq::empty())
    }
}

/// See `sigint_plan`.
pub fn sigint_writes(ctx: &WorldPluginCtx) -> (r: Option<Vec<String>>)
    ensures
        match r {
            Some(w) => sigint_plan(*ctx) == Some(str_seq_view(w@)),
            None => sigint_plan(*ctx) is None,
        },
{
    let counts = ctx.has_world_field("signal_received", "Int");
    if !(counts || ctx.subscribes_to("signal")) {
        return None;
    }
    let mut w: Vec<String> = Vec::new();
    if counts {
        w.push(String::from_str("signal_received"));
    }
    assert(str_seq_view(w@) =~= sigint_plan(*ctx).unwrap());
    Some(w)
}

/// The file watcher: installed when the World has `file_changed ∈ Int` and a
/// path to watch was given; it polls that path at the given period and owns
/// `file_changed`.
pub open spec fn watch_plan(ctx: WorldPluginCtx) -> Option<(Seq<char>, u64)> {
    if !has_field(ctx, "file_changed"@, "Int"@) {
        None
    } else {
        match ctx.env_file_watch {
            Some(p) => Some((p@, ctx.env_file_watch_ms)),
            None => None,
        }
    }
}

/// See `watch_plan`.
pub fn file_watch_target(ctx: &WorldPluginCtx) -> (r: Option<(String, u64)>)
    ensures
        match r {
            Some((p, ms)) => watch_plan(*ctx) == Some((p@, ms)),
            None => watch_plan(*ctx) is None,
        },
{
    if !ctx.has_world_field("file_changed", "Int") {
        return None;
    }
    match &ctx.env_file_watch {
        Some(p) => Some((p.clone(), ctx.env_file_watch_ms)),
        None => None,
    }
}

/// The line reader: installed when the World has `file_line ∈ String` and an
/// input file was given. It owns `file_line`, then `file_seq` if the World
/// has `file_seq ∈ Int`, then `file_eof` if it has `file_eof ∈ Bool`.
pub open spec fn line_plan(ctx: WorldPluginCtx) -> Option<(Seq<char>, Seq<Seq<char>>)> {
    if !has_field(ctx, "file_line"@, "String"@) {
        None
    } else {
        match ctx.env_file_input {
            Some(p) => {
                let w0 = seq!["file_line"@];
                let w1 = if has_field(ctx, "file_seq"@, "Int"@) { w0.push("file_seq"@) } else { w0 };
                let w2 = if has_field(ctx, "file_eof"@, "Bool"@) { w1.push("file_eof"@) } else { w1 };
                Some((p@, w2))
            },
            None => None,
        }
    }
}

/// See `line_plan`.
pub fn file_line_target(ctx: &WorldPluginCtx) -> (r: Option<(String, Vec<String>)>)
    ensures
        match r {
            Some((p, w)) => line_plan(*ctx) == Some((p@, str_seq_view(w@))),
            None => line_plan(*ctx) is None,
        },
{
    if !ctx.has_world_field("file_line", "String") {
        return None;
    }
    let path = match &ctx.env_file_input {
        Some(p) => p.clone(),
        None => {
            return None;
        },
    };
    let mut w: Vec<String> = Vec::new();
    w.push(String::from_str("file_line"));
    if ctx.has_world_field("file_seq", "Int") {
        w.push(String::from_str("file_seq"));
    }
    if ctx.has_world_field("file_eof", "Bool") {
        w.push(String::from_str("file_eof"));
    }
    assert(str_seq_view(w@) =~= line_plan(*ctx).unwrap().1);
    Some((path, w))
}

/// The names of the fields typed `Program`, in order.
pub open spec fn program_fields(fields: Seq<(Seq<char>, Seq<char>)>) -> Seq<Seq<char>>
    decreases fields.len(),
{
    if fields.len() == 0 {
        Seq::empty()
    } else {
        let prev = program_fields(fields.drop_last());
        if fields.last().1 == "Program"@ {
            prev.push(fields.last().0)
        } else {
            prev
        }
    }
}

/// Names separated by `, `.
pub open spec fn join_names(s: Seq<Seq<char>>) -> Seq<char>
    decreases s.len(),
{
    if s.len() == 0 {
        Seq::empty()
    } else if s.len() == 1 {
        s[0]
    } else {
        join_names(s.drop_last()) + ", "@ + s.last()
    }
}

pub open spec fn many_programs_text(names: Seq<Seq<char>>) -> Seq<char> {
    "reflection plugin: world declares multiple `Program` fields ("@ + join_names(names)
        + "); only one Program field per world is supported. Drop the redundant fields or rename one to a different type."@
}

/// The reflection source writes the encoded program into the one field typed
/// `Program`: none means no install; more than one is refused.
pub open spec fn reflection_plan(ctx: WorldPluginCtx) -> Result<Option<Seq<char>>, Seq<char>> {
    let c = program_fields(pairs_view(ctx.world_fields@));
    if c.len() == 0 {
        Ok(None)
    } else if c.len() > 1 {
        Err(many_programs_text(c))
    } else {
        Ok(Some(c[0]))
    }
}

/// See `reflection_plan`.
pub fn reflection_field(ctx: &WorldPluginCtx) -> (r: Result<Option<String>, String>)
    ensures
        match r {
            Ok(Some(f)) => reflection_plan(*ctx) == Ok::<Option<Seq<char>>, Seq<char>>(Some(f@)),
            Ok(None) => reflection_plan(*ctx) == Ok::<Option<Seq<char>>, Seq<char>>(None),
            Err(e) => reflection_plan(*ctx) == Err::<Option<Seq<char>>, Seq<char>>(e@),
        },
{
    let ghost fv = pairs_view(ctx.world_fields@);
    let mut cands: Vec<String> = Vec::new();
    let mut i: usize = 0;
    while i < ctx.world_fields.len()
        invariant
            0 <= i <= ctx.world_fields.len(),
            fv == pairs_view(ctx.world_fields@),
            str_seq_view(cands@) == program_fields(fv.take(i as int)),
        decreases ctx.world_fields.len() - i,
    {
        assert(fv.take(i + 1).drop_last() =~= fv.take(i as int));
        if str_is(&ctx.world_fields[i].1, "Program") {
            cands.push(ctx.world_fields[i].0.clone());
        }
        assert(str_seq_view(cands@) =~= program_fields(fv.take(i + 1)));
        i += 1;
    }
    assert(fv.take(ctx.world_fields.len() as int) =~= fv);
    if cands.len() == 0 {
        return Ok(None);
    }
    if cands.len() > 1 {
        let mut names = cands[0].clone();
        let mut k: usize = 1;
        while k < cands.len()
            invariant
                1 <= k <= cands.len(),
                names@ == join_names(str_seq_view(cands@).take(k as int)),
            decreases cands.len() - k,
        {
            let a = concat_str(&names, ", ");
            names = concat_str(&a, cands[k].as_str());
            assert(str_seq_view(cands@).take(k + 1).drop_last() =~= str_seq_view(cands@).take(k as int));
            k += 1;
        }
        assert(str_seq_view(cands@).take(cands.len() as int) =~= str_seq_view(cands@));
        let a = concat_str(&String::from_str("reflection plugin: world declares multiple `Program` fields ("), names.as_str());
        return Err(concat_str(
            &a,
            "); only one Program field per world is supported. Drop the redundant fields or rename one to a different type.",
        ));
    }
    Ok(Some(cands[0].clone()))
}

// ───────────────────────────── declarative install ─────────────────────────────

/// The literal pin values, slot by slot (a later pin of a slot replaces an
/// earlier one); pins whose value is not an int, bool or string literal are
/// passed over.
pub open spec fn given_of(ms: Seq<MappingV>) -> Seq<(Seq<char>, ValueV)>
    decreases ms.len(),
{
    if ms.len() == 0 {
        Seq::empty()
    } else {
        let prev = given_of(ms.drop_last());
        let m = ms.last();
        match m.value {
            ExprV::Int(n) => env_set(prev, m.slot, ValueV::Int(n)),
            ExprV::Bool(b) => env_set(prev, m.slot, ValueV::Bool(b)),
            ExprV::Str(s) => env_set(prev, m.slot, ValueV::Str(s)),
            _ => prev,
        }
    }
}

pub open spec fn pins_given_spec(p: PinsV) -> Seq<(Seq<char>, ValueV)> {
    match p {
        PinsV::Empty => Seq::empty(),
        PinsV::Named(ms) => given_of(ms),
    }
}

/// The given values that an install's query is run under; see `given_of`.
pub fn pins_given(pins: &Pins) -> (r: Vec<(String, Value)>)
    ensures
        record_view(r@) == pins_given_spec(pins_view(*pins)),
{
    let mut given: Vec<(String, Value)> = Vec::new();
    match pins {
        Pins::Empty => {
            assert(record_view(given@) =~= Seq::<(Seq<char>, ValueV)>::empty());
        },
        Pins::Named(ms) => {
            let ghost mv = mappings_view(ms@);
            assert(record_view(given@) =~= given_of(mv.take(0)));
            let mut i: usize = 0;
            while i < ms.len()
                invariant
                    0 <= i <= ms.len(),
                    pins_view(*pins) == PinsV::Named(mv),
                    mv == mappings_view(ms@),
                    record_view(given@) == given_of(mv.take(i as int)),
                decreases ms.len() - i,
            {
                let m: &Mapping = &ms[i];
                assert(mv.take(i + 1).drop_last() =~= mv.take(i as int));
                assert(mv.take(i + 1).last() == mapping_view(*m));
                match &m.value {
                    Expr::Int(n) => env_insert(&mut given, m.slot.clone(), Value::Int(*n)),
                    Expr::Bool(b) => env_insert(&mut given, m.slot.clone(), Value::Bool(*b)),
                    Expr::Str(s) => env_insert(&mut given, m.slot.clone(), Value::Str(s.clone())),
                    _ => {},
                }
                i += 1;
            }
            assert(mv.take(ms.len() as int) =~= mv);
        },
    }
    given
}

/// The world key an install step binds: `<fsm>.<param>.<field>`.
pub open spec fn install_key(claim: Seq<char>, param: Seq<char>, field: Seq<char>) -> Seq<char> {
    claim + "."@ + param + "."@ + field
}

pub open spec fn bound_failure_text(field: Seq<char>, err: Seq<char>) -> Seq<char> {
    "declarative install: step `Bind("@ + field + ", …)` returned Error: "@ + err
}

/// The writes of the first `n` steps paired with their results: each bound
/// step whose result carries a value writes it under its key; a bound step
/// whose result is an error fails the install; unbound steps and empty
/// results write nothing.
pub open spec fn install_writes_spec(
    claim: Seq<char>,
    param: Seq<char>,
    steps: Seq<InstallStepV>,
    results: Seq<EffectResultV>,
    n: nat,
) -> Result<Seq<(Seq<char>, ValueV)>, Seq<char>>
    decreases n,
{
    if n == 0 {
        Ok(Seq::empty())
    } else {
        match install_writes_spec(claim, param, steps, results, (n - 1) as nat) {
            Err(e) => Err(e),
            Ok(prev) => match steps[n - 1].field {
                None => Ok(prev),
                Some(f) => {
                    let key = install_key(claim, param, f);
                    match results[n - 1] {
                        EffectResultV::Int(k) => Ok(prev.push((key, ValueV::Int(k)))),
                        EffectResultV::Handle(h) => Ok(prev.push((key, ValueV::Int(h as i64)))),
                        EffectResultV::Str(s) => Ok(prev.push((key, ValueV::Str(s)))),
                        EffectResultV::Bool(b) => Ok(prev.push((key, ValueV::Bool(b)))),
                        EffectResultV::Real(x) => Ok(prev.push((key, ValueV::Real(x)))),
                        EffectResultV::Error(e) => Err(bound_failure_text(f, e)),
                        EffectResultV::NoResult => Ok(prev),
                    }
                },
            },
        }
    }
}

pub open spec fn min_len(a: nat, b: nat) -> nat {
    if a <= b {
        a
    } else {
        b
    }
}

/// What a declarative install writes into the world, given the steps it
/// dispatched and their results in order (paired up to the shorter list).
pub fn install_writes(
    claim_name: &str,
    param_name: &str,
    steps: &Vec<InstallStep>,
    results: &Vec<EffectResult>,
) -> (r: Result<Vec<(String, Value)>, String>)
    ensures
        match r {
            Ok(w) => install_writes_spec(claim_name@, param_name@, installs_view(steps@), results_view(results@),
                min_len(steps@.len(), results@.len())) == Ok::<Seq<(Seq<char>, ValueV)>, Seq<char>>(record_view(w@)),
            Err(e) => install_writes_spec(claim_name@, param_name@, installs_view(steps@), results_view(results@),
                min_len(steps@.len(), results@.len())) == Err::<Seq<(Seq<char>, ValueV)>, Seq<char>>(e@),
        },
{
    let ghost sv = installs_view(steps@);
    let ghost rv = results_view(results@);
    let n = if steps.len() <= results.len() {
        steps.len()
    } else {
        results.len()
    };
    let mut writes: Vec<(String, Value)> = Vec::new();
    let prefix = concat_str(&concat_str(&String::from_str(claim_name), "."), param_name);
    let prefix = concat_str(&prefix, ".");
    assert(record_view(writes@) =~= Seq::<(Seq<char>, ValueV)>::empty());
    let mut i: usize = 0;
    while i < n
        invariant
            0 <= i <= n,
            n <= steps.len(),
            n <= results.len(),
            n == min_len(steps@.len(), results@.len()),
            sv == installs_view(steps@),
            rv == results_view(results@),
            prefix@ == claim_name@ + "."@ + param_name@ + "."@,
            install_writes_spec(claim_name@, param_name@, sv, rv, i as nat) == Ok::<
                Seq<(Seq<char>, ValueV)>,
                Seq<char>,
            >(record_view(writes@)),
        decreases n - i,
    {
        let step = &steps[i];
        match &step.field {
            None => {},
            Some(field) => {
                let key = concat_str(&prefix, field.as_str());
                assert(key@ =~= install_key(claim_name@, param_name@, field@));
                let ghost before = record_view(writes@);
                match &results[i] {
                    EffectResult::Int(k) => writes.push((key, Value::Int(*k))),
                    EffectResult::Handle(h) => writes.push((key, Value::Int(#[verifier::truncate] (*h as i64)))),
                    EffectResult::Str(s) => writes.push((key, Value::Str(s.clone()))),
                    EffectResult::Bool(b) => writes.push((key, Value::Bool(*b))),
                    EffectResult::Real(x) => writes.push((key, Value::Real(*x))),
                    EffectResult::Error(e) => {
                        let a = concat_str(&String::from_str("declarative install: step `Bind("), field.as_str());
                        let b = concat_str(&a, ", …)` returned Error: ");
                        let msg = concat_str(&b, e.as_str());
                        proof {
                            lemma_install_fail_prefix(claim_name@, param_name@, sv, rv, (i + 1) as nat, n as nat);
                        }
                        return Err(msg);
                    },
                    EffectResult::NoResult => {},
                }
                assert(record_view(writes@) =~= match install_writes_spec(claim_name@, param_name@, sv, rv, (i + 1) as nat) {
                    Ok(w) => w,
                    Err(_) => before,
                });
            },
        }
        i += 1;
    }
    Ok(writes)
}

/// Once a prefix of the steps fails, every longer prefix fails with the same text.
proof fn lemma_install_fail_prefix(
    claim: Seq<char>,
    param: Seq<char>,
    steps: Seq<InstallStepV>,
    results: Seq<EffectResultV>,
    k: nat,
    n: nat,
)
    requires
        k <= n,
        install_writes_spec(claim, param, steps, results, k) is Err,
    ensures
        install_writes_spec(claim, param, steps, results, n) == install_writes_spec(claim, param, steps, results, k),
    decreases n - k,
{
    if k < n {
        lemma_install_fail_prefix(claim, param, steps, results, k, (n - 1) as nat);
    }
}

} // verus!
