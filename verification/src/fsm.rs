//! Detecting the shape of the program's top-level FSM: its state pair,
//! its effect and result channels, its world record, and the parameters
//! whose types install a native resource.
use vstd::prelude::*;
use vstd::string::StringExecFns;
use crate::ast::{
    strings_contain, strs_view, body_item_view, clone_body_item, clone_pins, items_view, lemma_schema_lists, pins_view, BodyItem, BodyItemV,
    Keyword, Pins, PinsV, SchemaDeclV,
};
use crate::program::{find_schema, schemas_view, Program};
use crate::functionize::names_set;
use crate::value::Value;
use crate::text::{concat_str, drop_last_chars, ends_with, has_prefix, has_suffix, starts_with, str_is};

verus! {

/// The detected shape of an `fsm` claim.
#[derive(PartialEq, Debug)]
pub struct MainShape {
    pub claim_name: String,
    pub state_var: Option<String>,
    pub state_next_var: Option<String>,
    pub state_type: Option<String>,
    pub last_results_var: Option<String>,
    pub effects_var: Option<String>,
    pub world_var: Option<String>,
    pub world_next_var: Option<String>,
    pub world_type: Option<String>,
    /// `(name, type, pins)` of each parameter whose type declares
    /// `install ∈ Seq(InstallStep)`.
    pub install_params: Vec<(String, String, Pins)>,
}

pub open spec fn opt_view(o: Option<String>) -> Option<Seq<char>> {
    match o {
        Some(s) => Some(s@),
        None => None,
    }
}

/// What the scan of an FSM's items has found so far.
pub struct ShapeScan {
    pub state_pair: Option<(Seq<char>, Seq<char>, Seq<char>)>,
    pub last_results: Option<Seq<char>>,
    pub effects: Option<Seq<char>>,
    pub world: Option<Seq<char>>,
    pub world_next: Option<Seq<char>>,
    pub world_type: Option<Seq<char>>,
    pub install: Seq<(Seq<char>, Seq<char>, PinsV)>,
}

pub open spec fn empty_scan() -> ShapeScan {
    ShapeScan {
        state_pair: None,
        last_results: None,
        effects: None,
        world: None,
        world_next: None,
        world_type: None,
        install: Seq::empty(),
    }
}

// ───────────────────────────── item collection ─────────────────────────────

/// How many schema entries carry a name outside `visited`.
pub open spec fn unvisited(schemas: Seq<SchemaDeclV>, visited: Set<Seq<char>>) -> nat
    decreases schemas.len(),
{
    if schemas.len() == 0 {
        0
    } else {
        unvisited(schemas.drop_first(), visited) + if visited.contains(schemas[0].name) {
            0nat
        } else {
            1nat
        }
    }
}

pub proof fn lemma_unvisited_insert(schemas: Seq<SchemaDeclV>, visited: Set<Seq<char>>, n: Seq<char>)
    ensures
        unvisited(schemas, visited.insert(n)) <= unvisited(schemas, visited),
        find_schema(schemas, n) is Some && !visited.contains(n) ==> unvisited(schemas, visited.insert(n)) < unvisited(
            schemas,
            visited,
        ),
    decreases schemas.len(),
{
    if schemas.len() > 0 {
        lemma_unvisited_insert(schemas.drop_first(), visited, n);
    }
}

pub proof fn lemma_unvisited_mono(schemas: Seq<SchemaDeclV>, a: Set<Seq<char>>, b: Set<Seq<char>>)
    requires
        a.subset_of(b),
    ensures
        unvisited(schemas, b) <= unvisited(schemas, a),
    decreases schemas.len(),
{
    if schemas.len() > 0 {
        lemma_unvisited_mono(schemas.drop_first(), a, b);
    }
}

/// The items of `items` in order, each `..name` passthrough followed by
/// the items of schema `name` (collected the same way) the first time
/// `name` is met; with the set of names met. `fuel` bounds the nesting.
pub open spec fn collect_items(
    schemas: Seq<SchemaDeclV>,
    items: Seq<BodyItemV>,
    visited: Set<Seq<char>>,
    fuel: nat,
) -> (Seq<BodyItemV>, Set<Seq<char>>)
    decreases fuel, items.len(),
{
    if items.len() == 0 {
        (Seq::empty(), visited)
    } else {
        let item = items[0];
        let (sub, visited1) = match item {
            BodyItemV::Passthrough { name, .. } => if visited.contains(name) {
                (Seq::empty(), visited)
            } else {
                match find_schema(schemas, name) {
                    Some(s) => if fuel > 0 {
                        collect_items(schemas, s.body, visited.insert(name), (fuel - 1) as nat)
                    } else {
                        (Seq::empty(), visited.insert(name))
                    },
                    None => (Seq::empty(), visited.insert(name)),
                }
            },
            _ => (Seq::empty(), visited),
        };
        let (rest, visited2) = collect_items(schemas, items.drop_first(), visited1, fuel);
        (seq![item] + sub + rest, visited2)
    }
}

/// Collection only adds names.
pub proof fn lemma_collect_grows(schemas: Seq<SchemaDeclV>, items: Seq<BodyItemV>, visited: Set<Seq<char>>, fuel: nat)
    ensures
        visited.subset_of(collect_items(schemas, items, visited, fuel).1),
    decreases fuel, items.len(),
{
    if items.len() > 0 {
        let item = items[0];
        let visited1 = match item {
            BodyItemV::Passthrough { name, .. } => if visited.contains(name) {
                visited
            } else {
                match find_schema(schemas, name) {
                    Some(s) => if fuel > 0 {
                        lemma_collect_grows(schemas, s.body, visited.insert(name), (fuel - 1) as nat);
                        collect_items(schemas, s.body, visited.insert(name), (fuel - 1) as nat).1
                    } else {
                        visited.insert(name)
                    },
                    None => visited.insert(name),
                }
            },
            _ => visited,
        };
        lemma_collect_grows(schemas, items.drop_first(), visited1, fuel);
    }
}


/// Append `collect_items` of `items` to `out`, marking the passthrough
/// names met in `visited`.
fn collect_into(
    items: &Vec<BodyItem>,
    rt: &Program,
    out: &mut Vec<BodyItem>,
    visited: &mut Vec<String>,
    Ghost(fuel): Ghost<nat>,
)
    requires
        fuel >= unvisited(rt.schemas_v(), names_set(old(visited)@)),
    ensures
        items_view(final(out)@) == items_view(old(out)@) + collect_items(
            rt.schemas_v(),
            items_view(items@),
            names_set(old(visited)@),
            fuel,
        ).0,
        names_set(final(visited)@) == collect_items(rt.schemas_v(), items_view(items@), names_set(old(visited)@), fuel).1,
    decreases fuel,
{
    let ghost sv = rt.schemas_v();
    let ghost iv = items_view(items@);
    let ghost target = collect_items(sv, iv, names_set(visited@), fuel);
    let ghost out0 = items_view(out@);
    let mut i: usize = 0;
    assert(iv.subrange(0, iv.len() as int) =~= iv);
    while i < items.len()
        invariant
            0 <= i <= items.len(),
            sv == rt.schemas_v(),
            iv == items_view(items@),
            fuel >= unvisited(sv, names_set(visited@)),
            out0 + target.0 == items_view(out@) + collect_items(sv, iv.subrange(i as int, iv.len() as int), names_set(visited@), fuel).0,
            target.1 == collect_items(sv, iv.subrange(i as int, iv.len() as int), names_set(visited@), fuel).1,
        decreases items.len() - i,
    {
        let ghost rest = iv.subrange(i as int, iv.len() as int);
        let ghost v0 = names_set(visited@);
        assert(rest[0] == body_item_view(items@[i as int]));
        assert(rest.drop_first() =~= iv.subrange(i + 1, iv.len() as int));
        let ghost out_before = items_view(out@);
        out.push(clone_body_item(&items[i]));
        assert(items_view(out@) =~= out_before.push(rest[0]));
        if let BodyItem::Passthrough { name, .. } = &items[i] {
            if !strings_contain(visited, name) {
                let ghost wb = visited@;
                visited.push(name.clone());
                assert(names_set(visited@) =~= v0.insert(name@)) by {
                    assert forall|x: Seq<char>| names_set(visited@).contains(x) <==> v0.insert(name@).contains(x) by {
                        if strs_view(visited@).contains(x) {
                            let k = choose|k: int| 0 <= k < strs_view(visited@).len() && strs_view(visited@)[k] == x;
                            if k < wb.len() {
                                assert(strs_view(wb)[k] == x);
                            }
                        }
                        if strs_view(wb).contains(x) {
                            let k = choose|k: int| 0 <= k < strs_view(wb).len() && strs_view(wb)[k] == x;
                            assert(strs_view(visited@)[k] == x);
                        }
                        if x == name@ {
                            assert(strs_view(visited@)[wb.len() as int] == x);
                        }
                    }
                }
                proof {
                    lemma_unvisited_insert(sv, v0, name@);
                }
                if let Some(sch) = rt.get_schema(name) {
                    proof {
                        lemma_schema_lists(*sch);
                    }
                    let ghost v1 = names_set(visited@);
                    let ghost ob = items_view(out@);
                    collect_into(&sch.body, rt, out, visited, Ghost((fuel - 1) as nat));
                    proof {
                        lemma_collect_grows(sv, sch@.body, v1, (fuel - 1) as nat);
                        lemma_unvisited_mono(sv, v1, names_set(visited@));
                        assert(items_view(out@) == ob + collect_items(sv, sch@.body, v1, (fuel - 1) as nat).0);
                    }
                }
            } else {
                assert(v0.contains(name@));
            }
        }
        i += 1;
    }
    assert(out0 + target.0 =~= items_view(out@));
}


// ───────────────────────────── the scan ─────────────────────────────

/// Does schema `ty` declare `install ∈ Seq(InstallStep)` in its body?
pub open spec fn declares_install(schemas: Seq<SchemaDeclV>, ty: Seq<char>) -> bool {
    match find_schema(schemas, ty) {
        Some(s) => exists|i: int|
            0 <= i < s.body.len() && (#[trigger] s.body[i] matches BodyItemV::Membership { name, ty, .. } && name
                == "install"@ && ty == "Seq(InstallStep)"@),
        None => false,
    }
}

/// Is some membership of `all` named `n` with type `t`?
pub open spec fn declares(all: Seq<BodyItemV>, n: Seq<char>, t: Seq<char>) -> bool {
    exists|i: int|
        0 <= i < all.len() && (#[trigger] all[i] matches BodyItemV::Membership { name, ty, .. } && name == n && ty == t)
}

/// A type that can hold an FSM state: not a primitive, sequence or set.
pub open spec fn is_state_type(ty: Seq<char>) -> bool {
    ty != "Int"@ && ty != "Bool"@ && ty != "String"@ && ty != "Real"@ && !has_prefix(ty, "Seq("@) && !has_prefix(
        ty,
        "Set("@,
    )
}

/// One item's effect on the scan. The first `effects ∈ Seq(Effect)` and
/// `last_results ∈ Seq(Result)` are the channels; `world`/`world_next`
/// name the world record; a parameter whose type installs a resource is
/// recorded; a state-typed `x_next` or `x` with a matching `x_next`
/// declares the state pair (a later one replaces an earlier one).
pub open spec fn scan_step(schemas: Seq<SchemaDeclV>, all: Seq<BodyItemV>, st: ShapeScan, item: BodyItemV) -> ShapeScan {
    match item {
        BodyItemV::Membership { name, ty, pins } => if ty == "Seq(Effect)"@ && name == "effects"@ && st.effects is None {
            ShapeScan { effects: Some(name), ..st }
        } else if ty == "Seq(Result)"@ && name == "last_results"@ && st.last_results is None {
            ShapeScan { last_results: Some(name), ..st }
        } else if name == "world"@ {
            ShapeScan { world: Some(name), world_type: Some(ty), ..st }
        } else if name == "world_next"@ {
            ShapeScan {
                world_next: Some(name),
                world_type: if st.world_type is None {
                    Some(ty)
                } else {
                    st.world_type
                },
                ..st
            }
        } else if declares_install(schemas, ty) {
            ShapeScan { install: st.install.push((name, ty, pins)), ..st }
        } else if is_state_type(ty) {
            if has_suffix(name, "_next"@) {
                let base = name.subrange(0, name.len() - 5);
                if st.state_pair matches Some(p) && p.0 == base {
                    st
                } else {
                    ShapeScan { state_pair: Some((base, name, ty)), ..st }
                }
            } else if st.state_pair is None || st.state_pair.unwrap().0 != name {
                if declares(all, name + "_next"@, ty) {
                    ShapeScan { state_pair: Some((name, name + "_next"@, ty)), ..st }
                } else {
                    st
                }
            } else {
                st
            }
        } else {
            st
        },
        _ => st,
    }
}

pub open spec fn scan(schemas: Seq<SchemaDeclV>, all: Seq<BodyItemV>, items: Seq<BodyItemV>) -> ShapeScan
    decreases items.len(),
{
    if items.len() == 0 {
        empty_scan()
    } else {
        scan_step(schemas, all, scan(schemas, all, items.drop_last()), items.last())
    }
}

/// The items of `claim`'s body with its passthroughs followed.
pub open spec fn fsm_items(schemas: Seq<SchemaDeclV>, claim: SchemaDeclV) -> Seq<BodyItemV> {
    collect_items(schemas, claim.body, Set::empty(), unvisited(schemas, Set::empty())).0
}

pub open spec fn install_view(v: Seq<(String, String, Pins)>) -> Seq<(Seq<char>, Seq<char>, PinsV)> {
    Seq::new(v.len(), |i: int| (v[i].0@, v[i].1@, pins_view(v[i].2)))
}

/// The shape `resolve_fsm` reports for claim `name`: `None` unless it is
/// a non-external `fsm`.
pub open spec fn fsm_shape(schemas: Seq<SchemaDeclV>, name: Seq<char>, shape: MainShape) -> bool {
    match find_schema(schemas, name) {
        Some(claim) => claim.keyword == Keyword::Fsm && !claim.external && {
            let st = scan(schemas, fsm_items(schemas, claim), fsm_items(schemas, claim));
            &&& shape.claim_name@ == name
            &&& opt_view(shape.state_var) == (match st.state_pair {
                Some(p) => Some(p.0),
                None => None,
            })
            &&& opt_view(shape.state_next_var) == (match st.state_pair {
                Some(p) => Some(p.1),
                None => None,
            })
            &&& opt_view(shape.state_type) == (match st.state_pair {
                Some(p) => Some(p.2),
                None => None,
            })
            &&& opt_view(shape.last_results_var) == st.last_results
            &&& opt_view(shape.effects_var) == st.effects
            &&& opt_view(shape.world_var) == st.world
            &&& opt_view(shape.world_next_var) == st.world_next
            &&& opt_view(shape.world_type) == st.world_type
            &&& install_view(shape.install_params@) == st.install
        },
        None => false,
    }
}

pub open spec fn is_fsm_claim(schemas: Seq<SchemaDeclV>, name: Seq<char>) -> bool {
    find_schema(schemas, name) matches Some(claim) && claim.keyword == Keyword::Fsm && !claim.external
}


// ───────────────────────────── executable ─────────────────────────────

struct ScanAcc {
    state_pair: Option<(String, String, String)>,
    last_results: Option<String>,
    effects: Option<String>,
    world: Option<String>,
    world_next: Option<String>,
    world_type: Option<String>,
    install: Vec<(String, String, Pins)>,
}

spec fn acc_view(a: ScanAcc) -> ShapeScan {
    ShapeScan {
        state_pair: match a.state_pair {
            Some(p) => Some((p.0@, p.1@, p.2@)),
            None => None,
        },
        last_results: opt_view(a.last_results),
        effects: opt_view(a.effects),
        world: opt_view(a.world),
        world_next: opt_view(a.world_next),
        world_type: opt_view(a.world_type),
        install: install_view(a.install@),
    }
}

fn clone_opt(o: &Option<String>) -> (r: Option<String>)
    ensures
        opt_view(r) == opt_view(*o),
{
    match o {
        Some(s) => Some(s.clone()),
        None => None,
    }
}

/// Does schema `ty` declare `install ∈ Seq(InstallStep)`?
fn has_declarative_install(rt: &Program, ty: &String) -> (r: bool)
    ensures
        r == declares_install(rt.schemas_v(), ty@),
{
    let s = match rt.get_schema(ty) {
        Some(s) => s,
        None => return false,
    };
    proof {
        lemma_schema_lists(*s);
    }
    let ghost bv = items_view(s.body@);
    let mut i: usize = 0;
    while i < s.body.len()
        invariant
            0 <= i <= s.body.len(),
            bv == items_view(s.body@),
            bv == s@.body,
            find_schema(rt.schemas_v(), ty@) == Some(s@),
            forall|k: int|
                0 <= k < i ==> !(#[trigger] bv[k] matches BodyItemV::Membership { name, ty, .. } && name == "install"@ && ty
                    == "Seq(InstallStep)"@),
        decreases s.body.len() - i,
    {
        assert(bv[i as int] == body_item_view(s.body@[i as int]));
        if let BodyItem::Membership { name, ty, .. } = &s.body[i] {
            if str_is(name, "install") && str_is(ty, "Seq(InstallStep)") {
                return true;
            }
        }
        i += 1;
    }
    false
}

/// Is some membership of `all` named `n` with type `t`?
fn declares_exec(all: &Vec<BodyItem>, n: &String, t: &String) -> (r: bool)
    ensures
        r == declares(items_view(all@), n@, t@),
{
    let ghost av = items_view(all@);
    let mut i: usize = 0;
    while i < all.len()
        invariant
            0 <= i <= all.len(),
            av == items_view(all@),
            forall|k: int|
                0 <= k < i ==> !(#[trigger] av[k] matches BodyItemV::Membership { name, ty, .. } && name == n@ && ty == t@),
        decreases all.len() - i,
    {
        assert(av[i as int] == body_item_view(all@[i as int]));
        if let BodyItem::Membership { name, ty, .. } = &all[i] {
            if *name == *n && *ty == *t {
                return true;
            }
        }
        i += 1;
    }
    false
}

fn is_state_type_exec(ty: &String) -> (r: bool)
    ensures
        r == is_state_type(ty@),
{
    !str_is(ty, "Int") && !str_is(ty, "Bool") && !str_is(ty, "String") && !str_is(ty, "Real") && !starts_with(ty, "Seq(")
        && !starts_with(ty, "Set(")
}

/// One item's effect on the scan; see `scan_step`.
fn scan_item(rt: &Program, all: &Vec<BodyItem>, acc: &mut ScanAcc, item: &BodyItem)
    ensures
        acc_view(*final(acc)) == scan_step(rt.schemas_v(), items_view(all@), acc_view(*old(acc)), item@),
{
    if let BodyItem::Membership { name, ty, pins } = item {
        if str_is(ty, "Seq(Effect)") && str_is(name, "effects") && acc.effects.is_none() {
            acc.effects = Some(name.clone());
        } else if str_is(ty, "Seq(Result)") && str_is(name, "last_results") && acc.last_results.is_none() {
            acc.last_results = Some(name.clone());
        } else if str_is(name, "world") {
            acc.world = Some(name.clone());
            acc.world_type = Some(ty.clone());
        } else if str_is(name, "world_next") {
            acc.world_next = Some(name.clone());
            if acc.world_type.is_none() {
                acc.world_type = Some(ty.clone());
            }
        } else if has_declarative_install(rt, ty) {
            let ghost prev = acc.install@;
            acc.install.push((name.clone(), ty.clone(), clone_pins(pins)));
            assert(install_view(acc.install@) =~= install_view(prev).push((name@, ty@, pins_view(*pins))));
        } else if is_state_type_exec(ty) {
            if ends_with(name, "_next") {
                proof {
                    reveal_strlit("_next");
                }
                let base = drop_last_chars(name, 5);
                let same = match &acc.state_pair {
                    Some(p) => p.0 == base,
                    None => false,
                };
                if !same {
                    acc.state_pair = Some((base, name.clone(), ty.clone()));
                }
            } else {
                let differs = match &acc.state_pair {
                    Some(p) => p.0 != *name,
                    None => true,
                };
                if differs {
                    let nxt = concat_str(name, "_next");
                    if declares_exec(all, &nxt, ty) {
                        acc.state_pair = Some((name.clone(), nxt, ty.clone()));
                    }
                }
            }
        }
    }
}

/// The shape of claim `claim_name` when it is a non-external `fsm`.
pub fn resolve_fsm(rt: &Program, claim_name: &str) -> (r: Option<MainShape>)
    ensures
        match r {
            Some(shape) => fsm_shape(rt.schemas_v(), claim_name@, shape),
            None => !is_fsm_claim(rt.schemas_v(), claim_name@),
        },
{
    let cname = String::from_str(claim_name);
    let claim = match rt.get_schema(&cname) {
        Some(c) => c,
        None => return None,
    };
    if !matches!(claim.keyword, Keyword::Fsm) {
        return None;
    }
    if claim.external {
        return None;
    }
    proof {
        lemma_schema_lists(*claim);
    }
    let ghost sv = rt.schemas_v();
    let mut all: Vec<BodyItem> = Vec::new();
    let mut visited: Vec<String> = Vec::new();
    assert(names_set(visited@) =~= Set::<Seq<char>>::empty());
    assert(items_view(all@) =~= Seq::<BodyItemV>::empty());
    collect_into(&claim.body, rt, &mut all, &mut visited, Ghost(unvisited(sv, Set::empty())));
    let ghost av = items_view(all@);
    assert(av =~= fsm_items(sv, claim@));
    let mut acc = ScanAcc {
        state_pair: None,
        last_results: None,
        effects: None,
        world: None,
        world_next: None,
        world_type: None,
        install: Vec::new(),
    };
    assert(install_view(acc.install@) =~= Seq::<(Seq<char>, Seq<char>, PinsV)>::empty());
    assert(acc_view(acc) == empty_scan());
    let mut i: usize = 0;
    while i < all.len()
        invariant
            0 <= i <= all.len(),
            sv == rt.schemas_v(),
            av == items_view(all@),
            acc_view(acc) == scan(sv, av, av.take(i as int)),
        decreases all.len() - i,
    {
        assert(av.take(i + 1).drop_last() =~= av.take(i as int));
        assert(av.take(i + 1).last() == body_item_view(all@[i as int]));
        scan_item(rt, &all, &mut acc, &all[i]);
        i += 1;
    }
    assert(av.take(all.len() as int) =~= av);
    let (state_var, state_next_var, state_type) = match acc.state_pair {
        Some((s, sn, st)) => (Some(s), Some(sn), Some(st)),
        None => (None, None, None),
    };
    Some(
        MainShape {
            claim_name: cname,
            state_var,
            state_next_var,
            state_type,
            last_results_var: acc.last_results,
            effects_var: acc.effects,
            world_var: acc.world,
            world_next_var: acc.world_next,
            world_type: acc.world_type,
            install_params: acc.install,
        },
    )
}

/// The shape of the claim `main`, when it is a non-external `fsm`.
pub fn detect_main_shape(rt: &Program) -> (r: Option<MainShape>)
    ensures
        match r {
            Some(shape) => fsm_shape(rt.schemas_v(), "main"@, shape),
            None => !is_fsm_claim(rt.schemas_v(), "main"@),
        },
{
    resolve_fsm(rt, "main")
}


// ───────────────────────────── the program's one FSM ─────────────────────────────

/// A schema name that is not one of the runtime's `sat_`/`unsat_` probes.
pub open spec fn is_program_name(n: Seq<char>) -> bool {
    !has_prefix(n, "sat_"@) && !has_prefix(n, "unsat_"@)
}

/// The names, in program order, of the schemas that resolve to an FSM.
pub open spec fn fsm_names(schemas: Seq<SchemaDeclV>, names: Seq<Seq<char>>) -> Seq<Seq<char>>
    decreases names.len(),
{
    if names.len() == 0 {
        Seq::empty()
    } else {
        fsm_names(schemas, names.drop_last()) + if is_program_name(names.last()) && is_fsm_claim(schemas, names.last()) {
            seq![names.last()]
        } else {
            Seq::empty()
        }
    }
}

pub open spec fn schema_names(schemas: Seq<SchemaDeclV>) -> Seq<Seq<char>> {
    Seq::new(schemas.len(), |i: int| schemas[i].name)
}

/// `parts` joined with `sep` between consecutive parts.
pub open spec fn join(parts: Seq<Seq<char>>, sep: Seq<char>) -> Seq<char>
    decreases parts.len(),
{
    if parts.len() == 0 {
        Seq::empty()
    } else if parts.len() == 1 {
        parts[0]
    } else {
        join(parts.drop_last(), sep) + sep + parts.last()
    }
}

pub open spec fn too_many_message(names: Seq<Seq<char>>) -> Seq<char> {
    crate::text::decimal(names.len()) + " fsm-shaped claims found (["@ + join(names, ", "@)
        + "]) but exactly one is allowed (one FSM per program)"@
}

/// The program's single FSM: an error when it declares none or more than one.
pub fn single_fsm(rt: &Program) -> (r: Result<MainShape, String>)
    ensures
        ({
            let found = fsm_names(rt.schemas_v(), schema_names(rt.schemas_v()));
            match r {
                Ok(shape) => found.len() == 1 && fsm_shape(rt.schemas_v(), found[0], shape),
                Err(msg) => if found.len() == 0 {
                    msg@ == "no fsm schemas found (declare one with the `fsm` keyword)"@
                } else {
                    found.len() > 1 && msg@ == too_many_message(found)
                },
            }
        }),
{
    let ghost sv = rt.schemas_v();
    let ghost nv = schema_names(sv);
    let mut fsms: Vec<MainShape> = Vec::new();
    let mut i: usize = 0;
    while i < rt.schemas.len()
        invariant
            0 <= i <= rt.schemas.len(),
            sv == rt.schemas_v(),
            nv == schema_names(sv),
            fsms.len() == fsm_names(sv, nv.take(i as int)).len(),
            forall|k: int| 0 <= k < fsms.len() ==> #[trigger] fsm_shape(sv, fsm_names(sv, nv.take(i as int))[k], fsms@[k]),
        decreases rt.schemas.len() - i,
    {
        let ghost prev = fsm_names(sv, nv.take(i as int));
        assert(nv.take(i + 1).drop_last() =~= nv.take(i as int));
        assert(nv.take(i + 1).last() == rt.schemas@[i as int].name@);
        let name = &rt.schemas[i].name;
        if !starts_with(name, "sat_") && !starts_with(name, "unsat_") {
            match resolve_fsm(rt, name.as_str()) {
                Some(shape) => {
                    fsms.push(shape);
                    assert(fsm_names(sv, nv.take(i + 1)) == prev.push(name@));
                },
                None => {
                    assert(fsm_names(sv, nv.take(i + 1)) =~= prev);
                },
            }
        } else {
            assert(fsm_names(sv, nv.take(i + 1)) =~= prev);
        }
        i += 1;
    }
    assert(nv.take(rt.schemas.len() as int) =~= nv);
    let ghost found = fsm_names(sv, nv);
    if fsms.len() == 0 {
        return Err(String::from_str("no fsm schemas found (declare one with the `fsm` keyword)"));
    }
    if fsms.len() == 1 {
        return Ok(fsms.pop().unwrap());
    }
    let mut msg = crate::text::usize_decimal(fsms.len());
    msg.append(" fsm-shaped claims found ([");
    let mut k: usize = 0;
    while k < fsms.len()
        invariant
            0 <= k <= fsms.len(),
            fsms.len() == found.len(),
            forall|m: int| 0 <= m < fsms.len() ==> #[trigger] fsm_shape(sv, found[m], fsms@[m]),
            msg@ == crate::text::decimal(found.len()) + " fsm-shaped claims found (["@ + join(found.take(k as int), ", "@),
        decreases fsms.len() - k,
    {
        assert(fsm_shape(sv, found[k as int], fsms@[k as int]));
        if k > 0 {
            msg.append(", ");
        }
        msg.append(fsms[k].claim_name.as_str());
        assert(found.take(k + 1).drop_last() =~= found.take(k as int));
        proof {
            if k == 0 {
                assert(join(found.take(1), ", "@) == found[0]);
            }
        }
        assert(msg@ =~= crate::text::decimal(found.len()) + " fsm-shaped claims found (["@ + join(found.take(k + 1), ", "@));
        k += 1;
    }
    msg.append("]) but exactly one is allowed (one FSM per program)");
    assert(found.take(found.len() as int) =~= found);
    Err(msg)
}


// ───────────────────────────── the tick loop's parameters ─────────────────────────────

/// Options of the top-level tick loop.
#[derive(PartialEq, Debug, Clone)]
pub struct LoopOpts {
    /// The most ticks to run before giving up.
    pub max_steps: usize,
}

impl Default for LoopOpts {
    fn default() -> (r: Self)
        ensures
            r.max_steps == 10_000,
    {
        LoopOpts { max_steps: 10_000 }
    }
}

/// How a run of the tick loop ended.
#[derive(PartialEq, Debug)]
pub struct LoopResult {
    pub steps: usize,
    pub final_state: Option<Value>,
    /// Halted by `Exit` or at a fixpoint rather than by running out of ticks.
    pub halted_clean: bool,
    pub exit_code: Option<i32>,
}


// ───────────────────────────── unrolling depth ─────────────────────────────

/// `p` is a power of two (1, 2, 4, ...).
pub open spec fn is_power_of_two(p: nat) -> bool
    decreases p,
{
    if p == 1 {
        true
    } else if p < 2 || p % 2 != 0 {
        false
    } else {
        is_power_of_two((p / 2) as nat)
    }
}

/// The largest power of two that is at most `n` (1 for `n == 0`): the depth
/// of the last squaring step when an FSM body is composed with itself `n` times.
pub fn largest_power_le(n: u64) -> (r: u64)
    requires
        n < 0x8000_0000_0000_0000,
    ensures
        is_power_of_two(r as nat),
        n == 0 ==> r == 1,
        n > 0 ==> r <= n && n < 2 * r,
{
    if n == 0 {
        return 1;
    }
    let mut p: u64 = 1;
    while p * 2 <= n
        invariant
            1 <= p <= n,
            n < 0x8000_0000_0000_0000,
            is_power_of_two(p as nat),
        decreases n - p,
    {
        assert(((p * 2) as nat / 2) as nat == p as nat);
        p = p * 2;
    }
    p
}

} // verus!
