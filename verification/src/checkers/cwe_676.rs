//! This module implements a check for CWE-676: Use of Potentially Dangerous
//! Function.
//!
//! Every call to one of the extern symbols that the configuration names is
//! flagged, together with the subroutine that makes the call and the address
//! of the call instruction.

use crate::intermediate_representation::{
    tid_order, Blk, ExternSymbol, Jmp, Program, Sub, Term, Tid, TidView,
};
use crate::log::{
    lemma_warning_order_equal_inv, lemma_warning_order_props, sort_warnings, warning_order,
    warnings_sorted, warnings_view, CweWarning, LogMessage,
};
use crate::order::{
    lemma_str_order_same, then, lemma_string_lists_order_same, lemma_strings_order_same, reverse, Order,
};
use vstd::prelude::*;
use vstd::string::StringExecFns;

verus! {

/// The name of the check.
pub const CWE_MODULE_NAME: &'static str = "CWE676";

/// The version of the check.
pub const CWE_MODULE_VERSION: &'static str = "0.1";

/// struct containing dangerous symbols from config.json
#[derive(Debug, Clone, Hash)]
pub struct Config {
    /// The names of the dangerous symbols.
    pub symbols: Vec<String>,
}

/// Some string of `list` has the contents `s`.
pub open spec fn string_in(list: Seq<String>, s: Seq<char>) -> bool {
    exists|i: int| 0 <= i < list.len() && (#[trigger] list[i])@ == s
}

/// The extern symbols (in their order) whose name is one of `symbols`, as
/// pairs of the symbol's term identifier and its name.
pub open spec fn dangerous_symbols_spec(externs: Seq<ExternSymbol>, symbols: Seq<String>) -> Seq<
    (TidView, Seq<char>),
>
    decreases externs.len(),
{
    if externs.len() == 0 {
        Seq::empty()
    } else {
        let rest = dangerous_symbols_spec(externs.drop_last(), symbols);
        let last = externs.last();
        if string_in(symbols, last.name@) {
            rest.push((last.tid@, last.name@))
        } else {
            rest
        }
    }
}

/// No two extern symbols share a term identifier, as keys of a map.
pub open spec fn distinct_tids(externs: Seq<ExternSymbol>) -> bool {
    forall|i: int, j: int|
        0 <= i < j < externs.len() ==> (#[trigger] externs[i]).tid@ != (#[trigger] externs[j]).tid@
}

/// The extern symbols of a well-formed program have distinct term
/// identifiers, so the monotonicity of resolving symbols holds for them.
pub proof fn lemma_program_distinct_tids(program: Program)
    requires
        program.wf(),
    ensures
        distinct_tids(program.extern_symbols@),
{
    let externs = program.extern_symbols@;
    let tids = externs.map_values(|s: ExternSymbol| s.tid@);
    assert forall|i: int, j: int| 0 <= i < j < externs.len() implies (#[trigger] externs[i]).tid@
        != (#[trigger] externs[j]).tid@ by {
        assert(tid_order(tids[i], tids[j]) == Order::Less);
        let t = externs[i].tid@;
        lemma_str_order_same(t.id);
        lemma_str_order_same(t.address);
        assert(tid_order(t, t) == then(Order::Equal, Order::Equal));
    }
}

/// Configuring more dangerous symbols keeps every symbol found before: when
/// every name of `fewer` is also in `more` and no two extern symbols share a
/// term identifier, each (term identifier, name) pair that resolving `fewer`
/// gives is what resolving `more` gives for that term identifier.
pub proof fn lemma_resolve_symbols_monotone(
    externs: Seq<ExternSymbol>,
    fewer: Seq<String>,
    more: Seq<String>,
    tid: TidView,
    name: Seq<char>,
)
    requires
        distinct_tids(externs),
        forall|x: Seq<char>| string_in(fewer, x) ==> string_in(more, x),
        dangerous_symbols_spec(externs, fewer).contains((tid, name)),
    ensures
        lookup_symbol(dangerous_symbols_spec(externs, more), tid) == Some(name),
    decreases externs.len(),
{
    let prefix = externs.drop_last();
    let last = externs.last();
    let rest_fewer = dangerous_symbols_spec(prefix, fewer);
    let rest_more = dangerous_symbols_spec(prefix, more);
    assert(distinct_tids(prefix)) by {
        assert forall|i: int, j: int| 0 <= i < j < prefix.len() implies (#[trigger] prefix[i]).tid@
            != (#[trigger] prefix[j]).tid@ by {
            assert(prefix[i] == externs[i] && prefix[j] == externs[j]);
        }
    }
    if (tid, name) == (last.tid@, last.name@) && string_in(fewer, last.name@) {
        assert(string_in(more, last.name@));
    } else {
        assert(rest_fewer.contains((tid, name))) by {
            if string_in(fewer, last.name@) {
                let k = choose|k: int|
                    0 <= k < rest_fewer.push((last.tid@, last.name@)).len() && rest_fewer.push(
                        (last.tid@, last.name@),
                    )[k] == (tid, name);
                assert(k < rest_fewer.len());
                assert(rest_fewer[k] == (tid, name));
            }
        }
        lemma_resolve_symbols_monotone(prefix, fewer, more, tid, name);
        lemma_dangerous_symbols_from(prefix, fewer, tid, name);
        let m = choose|m: int| 0 <= m < prefix.len() && prefix[m].tid@ == tid;
        assert(externs[m] == prefix[m]);
        assert(last.tid@ != tid);
        if string_in(more, last.name@) {
            assert(dangerous_symbols_spec(externs, more).drop_last() == rest_more);
        }
    }
}

/// Each pair of the resolved symbols comes from an extern symbol.
proof fn lemma_dangerous_symbols_from(
    externs: Seq<ExternSymbol>,
    symbols: Seq<String>,
    tid: TidView,
    name: Seq<char>,
)
    requires
        dangerous_symbols_spec(externs, symbols).contains((tid, name)),
    ensures
        exists|m: int| 0 <= m < externs.len() && externs[m].tid@ == tid,
    decreases externs.len(),
{
    let prefix = externs.drop_last();
    let last = externs.last();
    let rest = dangerous_symbols_spec(prefix, symbols);
    if (tid, name) == (last.tid@, last.name@) {
        assert(externs[externs.len() - 1].tid@ == tid);
    } else {
        assert(rest.contains((tid, name))) by {
            if string_in(symbols, last.name@) {
                let k = choose|k: int|
                    0 <= k < rest.push((last.tid@, last.name@)).len() && rest.push(
                        (last.tid@, last.name@),
                    )[k] == (tid, name);
                assert(k < rest.len());
                assert(rest[k] == (tid, name));
            }
        }
        lemma_dangerous_symbols_from(prefix, symbols, tid, name);
        let m = choose|m: int| 0 <= m < prefix.len() && prefix[m].tid@ == tid;
        assert(externs[m] == prefix[m]);
    }
}

/// Resolving finds exactly the configured extern symbols: the pair
/// (`tid`, `name`) is among the resolved symbols exactly when some extern
/// symbol has that term identifier and that name, and some configured symbol
/// is that name.
pub proof fn lemma_resolved_symbols(
    externs: Seq<ExternSymbol>,
    symbols: Seq<String>,
    tid: TidView,
    name: Seq<char>,
)
    ensures
        dangerous_symbols_spec(externs, symbols).contains((tid, name)) <==> (exists|m: int|
            0 <= m < externs.len() && (#[trigger] externs[m]).tid@ == tid && externs[m].name@ == name)
            && (exists|i: int| 0 <= i < symbols.len() && (#[trigger] symbols[i])@ == name),
    decreases externs.len(),
{
    if externs.len() > 0 {
        let prefix = externs.drop_last();
        let last = externs.last();
        let n = externs.len() - 1;
        let rest = dangerous_symbols_spec(prefix, symbols);
        lemma_resolved_symbols(prefix, symbols, tid, name);
        if string_in(symbols, last.name@) {
            assert(dangerous_symbols_spec(externs, symbols) == rest.push((last.tid@, last.name@)));
            if rest.push((last.tid@, last.name@)).contains((tid, name)) {
                let q = choose|q: int|
                    0 <= q < rest.push((last.tid@, last.name@)).len() && rest.push(
                        (last.tid@, last.name@),
                    )[q] == (tid, name);
                if q < rest.len() {
                    assert(rest[q] == (tid, name));
                    let m = choose|m: int|
                        0 <= m < prefix.len() && (#[trigger] prefix[m]).tid@ == tid
                            && prefix[m].name@ == name;
                    assert(externs[m] == prefix[m]);
                } else {
                    assert(externs[n].tid@ == tid && externs[n].name@ == name);
                }
            }
            if (exists|m: int|
                0 <= m < externs.len() && (#[trigger] externs[m]).tid@ == tid && externs[m].name@
                    == name) && (exists|i: int| 0 <= i < symbols.len() && (#[trigger] symbols[i])@ == name) {
                let m = choose|m: int|
                    0 <= m < externs.len() && (#[trigger] externs[m]).tid@ == tid && externs[m].name@
                        == name;
                if m < n {
                    assert(prefix[m] == externs[m]);
                    let q = choose|q: int| 0 <= q < rest.len() && rest[q] == (tid, name);
                    assert(rest.push((last.tid@, last.name@))[q] == (tid, name));
                } else {
                    assert(rest.push((last.tid@, last.name@))[rest.len() as int] == (tid, name));
                }
            }
        } else {
            assert(dangerous_symbols_spec(externs, symbols) == rest);
            if (exists|m: int|
                0 <= m < externs.len() && (#[trigger] externs[m]).tid@ == tid && externs[m].name@
                    == name) && (exists|i: int| 0 <= i < symbols.len() && (#[trigger] symbols[i])@ == name) {
                let m = choose|m: int|
                    0 <= m < externs.len() && (#[trigger] externs[m]).tid@ == tid && externs[m].name@
                        == name;
                let i = choose|i: int| 0 <= i < symbols.len() && (#[trigger] symbols[i])@ == name;
                if m == n {
                    assert(string_in(symbols, last.name@));
                }
                assert(prefix[m] == externs[m]);
            }
            if rest.contains((tid, name)) {
                let m = choose|m: int|
                    0 <= m < prefix.len() && (#[trigger] prefix[m]).tid@ == tid && prefix[m].name@
                        == name;
                assert(externs[m] == prefix[m]);
            }
        }
    }
}

/// The contents of a list of (term identifier, name) pairs.
pub open spec fn symbol_entries_view(entries: Seq<(Tid, String)>) -> Seq<(TidView, Seq<char>)> {
    entries.map_values(|e: (Tid, String)| (e.0@, e.1@))
}

/// The name that a list of (term identifier, name) pairs gives `tid`; a later
/// pair overrides an earlier one with the same term identifier, as inserting
/// the pairs into a map in their order would.
pub open spec fn lookup_symbol(symbols: Seq<(TidView, Seq<char>)>, tid: TidView) -> Option<
    Seq<char>,
>
    decreases symbols.len(),
{
    if symbols.len() == 0 {
        None
    } else if symbols.last().0 == tid {
        Some(symbols.last().1)
    } else {
        lookup_symbol(symbols.drop_last(), tid)
    }
}

/// A call found by the check: the name of the calling subroutine, the term
/// identifier of the call instruction and the name of the called symbol.
pub type CallView = (Seq<char>, TidView, Seq<char>);

/// The contents of a list of calls.
pub open spec fn calls_view(calls: Seq<(String, Tid, String)>) -> Seq<CallView> {
    calls.map_values(|c: (String, Tid, String)| (c.0@, c.1@, c.2@))
}

/// The calls among `jmps` to one of `symbols`, in order.
pub open spec fn jmp_calls(sub_name: Seq<char>, jmps: Seq<Term<Jmp>>, symbols: Seq<(TidView, Seq<char>)>) -> Seq<
    CallView,
>
    decreases jmps.len(),
{
    if jmps.len() == 0 {
        Seq::empty()
    } else {
        let rest = jmp_calls(sub_name, jmps.drop_last(), symbols);
        match jmps.last().term {
            Jmp::Call { target, .. } => match lookup_symbol(symbols, target@) {
                Some(name) => rest.push((sub_name, jmps.last().tid@, name)),
                None => rest,
            },
            _ => rest,
        }
    }
}

/// The calls in `blocks` to one of `symbols`, block by block.
pub open spec fn block_calls(sub_name: Seq<char>, blocks: Seq<Term<Blk>>, symbols: Seq<(TidView, Seq<char>)>) -> Seq<
    CallView,
>
    decreases blocks.len(),
{
    if blocks.len() == 0 {
        Seq::empty()
    } else {
        block_calls(sub_name, blocks.drop_last(), symbols) + jmp_calls(
            sub_name,
            blocks.last().term.jmps@,
            symbols,
        )
    }
}

/// The calls in `subs` to one of `symbols`, subroutine by subroutine.
pub open spec fn program_calls(subs: Seq<Term<Sub>>, symbols: Seq<(TidView, Seq<char>)>) -> Seq<
    CallView,
>
    decreases subs.len(),
{
    if subs.len() == 0 {
        Seq::empty()
    } else {
        program_calls(subs.drop_last(), symbols) + block_calls(
            subs.last().term.name@,
            subs.last().term.blocks@,
            symbols,
        )
    }
}

/// `name` is what the (term identifier, name) pairs `symbols` give the term
/// identifier `target`: the name of the last pair with that identifier, as
/// inserting the pairs into a map in their order keeps it.
pub open spec fn resolves_to(symbols: Seq<(TidView, Seq<char>)>, target: TidView, name: Seq<char>) -> bool {
    exists|m: int|
        0 <= m < symbols.len() && #[trigger] symbols[m] == (target, name) && forall|m2: int|
            m < m2 < symbols.len() ==> (#[trigger] symbols[m2]).0 != target
}

/// The jump is a call whose target resolves to `name` among `symbols`.
pub open spec fn call_resolves(jmp: Term<Jmp>, symbols: Seq<(TidView, Seq<char>)>, name: Seq<char>) -> bool {
    match jmp.term {
        Jmp::Call { target, .. } => resolves_to(symbols, target@, name),
        _ => false,
    }
}

/// Looking a term identifier up gives the name of the last pair with that
/// identifier, and nothing where no pair has it.
pub proof fn lemma_lookup_symbol(symbols: Seq<(TidView, Seq<char>)>, target: TidView)
    ensures
        lookup_symbol(symbols, target) matches Some(name) ==> resolves_to(symbols, target, name),
        lookup_symbol(symbols, target) is None ==> forall|m: int|
            0 <= m < symbols.len() ==> (#[trigger] symbols[m]).0 != target,
        forall|name: Seq<char>|
            #[trigger] resolves_to(symbols, target, name) ==> lookup_symbol(symbols, target) == Some(
                name,
            ),
    decreases symbols.len(),
{
    if symbols.len() > 0 {
        let prefix = symbols.drop_last();
        let n = symbols.len() - 1;
        lemma_lookup_symbol(prefix, target);
        if symbols.last().0 == target {
            assert(symbols[n] == (target, symbols.last().1));
            assert forall|name: Seq<char>| #[trigger] resolves_to(symbols, target, name) implies name
                == symbols.last().1 by {
                let m = choose|m: int|
                    0 <= m < symbols.len() && #[trigger] symbols[m] == (target, name) && forall|m2: int|
                        m < m2 < symbols.len() ==> (#[trigger] symbols[m2]).0 != target;
                if m < n {
                    assert(symbols[n].0 == target);
                }
            }
        } else {
            if let Some(name) = lookup_symbol(prefix, target) {
                let m = choose|m: int|
                    0 <= m < prefix.len() && #[trigger] prefix[m] == (target, name) && forall|m2: int|
                        m < m2 < prefix.len() ==> (#[trigger] prefix[m2]).0 != target;
                assert(symbols[m] == (target, name));
                assert forall|m2: int| m < m2 < symbols.len() implies (#[trigger] symbols[m2]).0
                    != target by {
                    if m2 < n {
                        assert(symbols[m2] == prefix[m2]);
                    }
                }
            } else {
                assert forall|m: int| 0 <= m < symbols.len() implies (#[trigger] symbols[m]).0
                    != target by {
                    if m < n {
                        assert(symbols[m] == prefix[m]);
                    }
                }
            }
            assert forall|name: Seq<char>| #[trigger] resolves_to(symbols, target, name) implies resolves_to(
                prefix,
                target,
                name,
            ) by {
                let m = choose|m: int|
                    0 <= m < symbols.len() && #[trigger] symbols[m] == (target, name) && forall|m2: int|
                        m < m2 < symbols.len() ==> (#[trigger] symbols[m2]).0 != target;
                assert(m < n);
                assert(prefix[m] == (target, name));
                assert forall|m2: int| m < m2 < prefix.len() implies (#[trigger] prefix[m2]).0
                    != target by {
                    assert(symbols[m2] == prefix[m2]);
                }
            }
        }
    }
}

/// Every jump of a block is looked at: a call at any position `k` whose
/// target resolves to `name` gives the call (`sub_name`, the jump's term
/// identifier, `name`).
pub proof fn lemma_jmp_calls_complete(
    sub_name: Seq<char>,
    jmps: Seq<Term<Jmp>>,
    symbols: Seq<(TidView, Seq<char>)>,
    k: int,
    name: Seq<char>,
)
    requires
        0 <= k < jmps.len(),
        call_resolves(jmps[k], symbols, name),
    ensures
        jmp_calls(sub_name, jmps, symbols).contains((sub_name, jmps[k].tid@, name)),
    decreases jmps.len(),
{
    let prefix = jmps.drop_last();
    let rest = jmp_calls(sub_name, prefix, symbols);
    if k < jmps.len() - 1 {
        assert(prefix[k] == jmps[k]);
        lemma_jmp_calls_complete(sub_name, prefix, symbols, k, name);
        let q = choose|q: int| 0 <= q < rest.len() && rest[q] == (sub_name, jmps[k].tid@, name);
        match jmps.last().term {
            Jmp::Call { target, .. } => match lookup_symbol(symbols, target@) {
                Some(n) => {
                    assert(rest.push((sub_name, jmps.last().tid@, n))[q] == rest[q]);
                },
                None => {},
            },
            _ => {},
        }
    } else {
        if let Jmp::Call { target, .. } = jmps[k].term {
            lemma_lookup_symbol(symbols, target@);
            let out = jmp_calls(sub_name, jmps, symbols);
            assert(out[out.len() - 1] == (sub_name, jmps[k].tid@, name));
        }
    }
}

/// Only calls are found: every entry of the calls among `jmps` is a call at
/// some position whose target resolves to the entry's name.
pub proof fn lemma_jmp_calls_sound(
    sub_name: Seq<char>,
    jmps: Seq<Term<Jmp>>,
    symbols: Seq<(TidView, Seq<char>)>,
    q: int,
)
    requires
        0 <= q < jmp_calls(sub_name, jmps, symbols).len(),
    ensures
        ({
            let c = jmp_calls(sub_name, jmps, symbols)[q];
            exists|k: int|
                0 <= k < jmps.len() && call_resolves(#[trigger] jmps[k], symbols, c.2) && c == (
                    sub_name,
                    jmps[k].tid@,
                    c.2,
                )
        }),
    decreases jmps.len(),
{
    let prefix = jmps.drop_last();
    let rest = jmp_calls(sub_name, prefix, symbols);
    let c = jmp_calls(sub_name, jmps, symbols)[q];
    let last = jmps.len() - 1;
    if q < rest.len() {
        lemma_jmp_calls_sound(sub_name, prefix, symbols, q);
        match jmps.last().term {
            Jmp::Call { target, .. } => match lookup_symbol(symbols, target@) {
                Some(n) => {
                    assert(rest.push((sub_name, jmps.last().tid@, n))[q] == rest[q]);
                },
                None => {},
            },
            _ => {},
        }
        let k = choose|k: int|
            0 <= k < prefix.len() && call_resolves(#[trigger] prefix[k], symbols, rest[q].2) && rest[q]
                == (sub_name, prefix[k].tid@, rest[q].2);
        assert(jmps[k] == prefix[k]);
    } else {
        if let Jmp::Call { target, .. } = jmps[last].term {
            lemma_lookup_symbol(symbols, target@);
            assert(call_resolves(jmps[last], symbols, c.2));
        }
    }
}

/// Every block of a subroutine is looked at: a call at any position `k` of
/// any block `j` whose target resolves to `name` gives the call.
pub proof fn lemma_block_calls_complete(
    sub_name: Seq<char>,
    blocks: Seq<Term<Blk>>,
    symbols: Seq<(TidView, Seq<char>)>,
    j: int,
    k: int,
    name: Seq<char>,
)
    requires
        0 <= j < blocks.len(),
        0 <= k < blocks[j].term.jmps@.len(),
        call_resolves(blocks[j].term.jmps@[k], symbols, name),
    ensures
        block_calls(sub_name, blocks, symbols).contains((sub_name, blocks[j].term.jmps@[k].tid@, name)),
    decreases blocks.len(),
{
    let prefix = blocks.drop_last();
    let rest = block_calls(sub_name, prefix, symbols);
    let tail = jmp_calls(sub_name, blocks.last().term.jmps@, symbols);
    let c = (sub_name, blocks[j].term.jmps@[k].tid@, name);
    if j < blocks.len() - 1 {
        assert(prefix[j] == blocks[j]);
        lemma_block_calls_complete(sub_name, prefix, symbols, j, k, name);
        let q = choose|q: int| 0 <= q < rest.len() && rest[q] == c;
        assert((rest + tail)[q] == c);
    } else {
        lemma_jmp_calls_complete(sub_name, blocks.last().term.jmps@, symbols, k, name);
        let q = choose|q: int| 0 <= q < tail.len() && tail[q] == c;
        assert((rest + tail)[rest.len() + q] == c);
    }
}

/// Only calls are found: every entry of the calls in `blocks` is a call at
/// some position of some block whose target resolves to the entry's name.
pub proof fn lemma_block_calls_sound(
    sub_name: Seq<char>,
    blocks: Seq<Term<Blk>>,
    symbols: Seq<(TidView, Seq<char>)>,
    q: int,
)
    requires
        0 <= q < block_calls(sub_name, blocks, symbols).len(),
    ensures
        ({
            let c = block_calls(sub_name, blocks, symbols)[q];
            exists|j: int, k: int|
                0 <= j < blocks.len() && 0 <= k < blocks[j].term.jmps@.len() && call_resolves(
                    #[trigger] blocks[j].term.jmps@[k],
                    symbols,
                    c.2,
                ) && c == (
                    sub_name,
                    blocks[j].term.jmps@[k].tid@,
                    c.2,
                )
        }),
    decreases blocks.len(),
{
    let prefix = blocks.drop_last();
    let rest = block_calls(sub_name, prefix, symbols);
    let last = blocks.len() - 1;
    let tail = jmp_calls(sub_name, blocks[last].term.jmps@, symbols);
    let c = block_calls(sub_name, blocks, symbols)[q];
    if q < rest.len() {
        lemma_block_calls_sound(sub_name, prefix, symbols, q);
        assert((rest + tail)[q] == rest[q]);
        let (j, k) = choose|j: int, k: int|
            0 <= j < prefix.len() && 0 <= k < prefix[j].term.jmps@.len() && call_resolves(
                #[trigger] prefix[j].term.jmps@[k],
                symbols,
                rest[q].2,
            ) && rest[q] == (
                sub_name,
                prefix[j].term.jmps@[k].tid@,
                rest[q].2,
            );
        assert(blocks[j] == prefix[j]);
        assert(blocks[j].term.jmps@[k] == prefix[j].term.jmps@[k]);
    } else {
        let q2 = q - rest.len();
        assert((rest + tail)[q] == tail[q2]);
        lemma_jmp_calls_sound(sub_name, blocks[last].term.jmps@, symbols, q2);
        let k = choose|k: int|
            0 <= k < blocks[last].term.jmps@.len() && call_resolves(
                #[trigger] blocks[last].term.jmps@[k],
                symbols,
                tail[q2].2,
            ) && tail[q2] == (
                sub_name,
                blocks[last].term.jmps@[k].tid@,
                tail[q2].2,
            );
        assert(blocks[last].term.jmps@[k] == blocks[last].term.jmps@[k]);
    }
}

/// Every subroutine is looked at: a call at any position `k` of any block `j`
/// of any subroutine `i` whose target resolves to `name` gives the call (the
/// subroutine's name, the jump's term identifier, `name`).
pub proof fn lemma_program_calls_complete(
    subs: Seq<Term<Sub>>,
    symbols: Seq<(TidView, Seq<char>)>,
    i: int,
    j: int,
    k: int,
    name: Seq<char>,
)
    requires
        0 <= i < subs.len(),
        0 <= j < subs[i].term.blocks@.len(),
        0 <= k < subs[i].term.blocks@[j].term.jmps@.len(),
        call_resolves(subs[i].term.blocks@[j].term.jmps@[k], symbols, name),
    ensures
        program_calls(subs, symbols).contains(
            (subs[i].term.name@, subs[i].term.blocks@[j].term.jmps@[k].tid@, name),
        ),
    decreases subs.len(),
{
    let prefix = subs.drop_last();
    let rest = program_calls(prefix, symbols);
    let last = subs.len() - 1;
    let tail = block_calls(subs[last].term.name@, subs[last].term.blocks@, symbols);
    let c = (subs[i].term.name@, subs[i].term.blocks@[j].term.jmps@[k].tid@, name);
    if i < last {
        assert(prefix[i] == subs[i]);
        lemma_program_calls_complete(prefix, symbols, i, j, k, name);
        let q = choose|q: int| 0 <= q < rest.len() && rest[q] == c;
        assert((rest + tail)[q] == c);
    } else {
        lemma_block_calls_complete(subs[last].term.name@, subs[last].term.blocks@, symbols, j, k, name);
        let q = choose|q: int| 0 <= q < tail.len() && tail[q] == c;
        assert((rest + tail)[rest.len() + q] == c);
    }
}

/// Only calls are found: every entry of the calls of a program is a call at
/// some position of some block of some subroutine whose target resolves to
/// the entry's name, with the subroutine's name.
pub proof fn lemma_program_calls_sound(
    subs: Seq<Term<Sub>>,
    symbols: Seq<(TidView, Seq<char>)>,
    q: int,
)
    requires
        0 <= q < program_calls(subs, symbols).len(),
    ensures
        ({
            let c = program_calls(subs, symbols)[q];
            exists|i: int, j: int, k: int|
                0 <= i < subs.len() && 0 <= j < subs[i].term.blocks@.len() && 0 <= k
                    < subs[i].term.blocks@[j].term.jmps@.len() && call_resolves(
                    #[trigger] subs[i].term.blocks@[j].term.jmps@[k],
                    symbols,
                    c.2,
                ) && c == (subs[i].term.name@, subs[i].term.blocks@[j].term.jmps@[k].tid@, c.2)
        }),
    decreases subs.len(),
{
    let prefix = subs.drop_last();
    let rest = program_calls(prefix, symbols);
    let last = subs.len() - 1;
    let tail = block_calls(subs[last].term.name@, subs[last].term.blocks@, symbols);
    if q < rest.len() {
        lemma_program_calls_sound(prefix, symbols, q);
        assert((rest + tail)[q] == rest[q]);
        let (i, j, k) = choose|i: int, j: int, k: int|
            0 <= i < prefix.len() && 0 <= j < prefix[i].term.blocks@.len() && 0 <= k
                < prefix[i].term.blocks@[j].term.jmps@.len() && call_resolves(
                #[trigger] prefix[i].term.blocks@[j].term.jmps@[k],
                symbols,
                rest[q].2,
            ) && rest[q] == (prefix[i].term.name@, prefix[i].term.blocks@[j].term.jmps@[k].tid@, rest[q].2);
        assert(subs[i] == prefix[i]);
    } else {
        let q2 = q - rest.len();
        assert((rest + tail)[q] == tail[q2]);
        lemma_block_calls_sound(subs[last].term.name@, subs[last].term.blocks@, symbols, q2);
        let (j, k) = choose|j: int, k: int|
            0 <= j < subs[last].term.blocks@.len() && 0 <= k < subs[last].term.blocks@[j].term.jmps@.len()
                && call_resolves(#[trigger] subs[last].term.blocks@[j].term.jmps@[k], symbols, tail[q2].2)
                && tail[q2] == (subs[last].term.name@, subs[last].term.blocks@[j].term.jmps@[k].tid@, tail[q2].2);
        assert(call_resolves(subs[last].term.blocks@[j].term.jmps@[k], symbols, tail[q2].2));
    }
}

/// `w` is the warning for the dangerous call `call`.
pub open spec fn is_warning_for_call(w: CweWarning, call: CallView) -> bool {
    let (sub_name, jmp_tid, target_name) = call;
    &&& w.name@ == CWE_MODULE_NAME@
    &&& w.version@ == CWE_MODULE_VERSION@
    &&& w.description@ == "(Use of Potentially Dangerous Function) "@ + sub_name + " ("@
        + jmp_tid.address + ") -> "@ + target_name
    &&& w.addresses@.len() == 1 && w.addresses@[0]@ == jmp_tid.address
    &&& w.tids@.len() == 1 && w.tids@[0]@ == jmp_tid.id
    &&& w.symbols@.len() == 1 && w.symbols@[0]@ == sub_name
    &&& w.other@.len() == 1 && w.other@[0]@.len() == 2 && w.other@[0]@[0]@ == "dangerous_function"@
        && w.other@[0]@[1]@ == target_name
}

/// `warnings` are the warnings for `calls`, sorted.
pub open spec fn are_warnings_for_calls(warnings: Seq<CweWarning>, calls: Seq<CallView>) -> bool {
    &&& warnings_sorted(warnings)
    &&& exists|unsorted: Seq<CweWarning>|
        {
            &&& unsorted.len() == calls.len()
            &&& forall|i: int| 0 <= i < calls.len() ==> is_warning_for_call(#[trigger] unsorted[i], calls[i])
            &&& unsorted.to_multiset() == warnings.to_multiset()
        }
}

/// The call that a warning of this check is about.
pub open spec fn call_of(w: CweWarning) -> CallView {
    (w.symbols@[0]@, TidView { id: w.tids@[0]@, address: w.addresses@[0]@ }, w.other@[0]@[1]@)
}

/// The calls that a list of warnings of this check are about.
pub open spec fn warning_calls(warnings: Seq<CweWarning>) -> Seq<CallView> {
    warnings.map_values(|w: CweWarning| call_of(w))
}

/// Every warning of the list is the warning for a call.
pub open spec fn all_call_warnings(warnings: Seq<CweWarning>) -> bool {
    forall|i: int| 0 <= i < warnings.len() ==> is_warning_for_call(#[trigger] warnings[i], call_of(warnings[i]))
}

/// Two warnings for the same call compare equal.
proof fn lemma_same_call_equal(w1: CweWarning, w2: CweWarning, c: CallView)
    requires
        is_warning_for_call(w1, c),
        is_warning_for_call(w2, c),
    ensures
        warning_order(w1, w2) == Order::Equal,
{
    reveal(warning_order);
    lemma_str_order_same(w1.name@);
    lemma_str_order_same(w1.version@);
    lemma_strings_order_same(w1.addresses@, w2.addresses@);
    lemma_strings_order_same(w1.tids@, w2.tids@);
    lemma_strings_order_same(w1.symbols@, w2.symbols@);
    assert(w1.other@[0]@.len() == w2.other@[0]@.len());
    assert forall|j: int| 0 <= j < w1.other@[0]@.len() implies (#[trigger] w1.other@[0]@[j])@
        == w2.other@[0]@[j]@ by {
        if j == 0 {
        } else {
            assert(j == 1);
        }
    }
    lemma_string_lists_order_same(w1.other@, w2.other@);
    lemma_str_order_same(w1.description@);
}

/// Two warnings that compare no greater either way compare equal; and
/// comparing equal is transitive.
proof fn lemma_order_equal(a: CweWarning, b: CweWarning, c: CweWarning)
    ensures
        warning_order(a, b) != Order::Greater && warning_order(b, a) != Order::Greater ==> warning_order(a, b) == Order::Equal,
        warning_order(a, b) == Order::Equal && warning_order(b, c) == Order::Equal ==> warning_order(a, c) == Order::Equal,
        warning_order(a, b) == Order::Equal ==> warning_order(b, a) == Order::Equal,
{
    lemma_warning_order_props(a, b, c);
    lemma_warning_order_props(c, b, a);
    lemma_warning_order_props(b, a, c);
    lemma_warning_order_props(a, c, b);
}

/// Mapping sequences with the same elements gives sequences with the same
/// elements.
proof fn lemma_map_to_multiset<A, B>(s1: Seq<A>, s2: Seq<A>, f: spec_fn(A) -> B)
    requires
        s1.to_multiset() == s2.to_multiset(),
    ensures
        s1.map_values(f).to_multiset() == s2.map_values(f).to_multiset(),
    decreases s1.len(),
{
    broadcast use vstd::seq_lib::group_to_multiset_ensures;

    vstd::seq_lib::to_multiset_len(s1);
    vstd::seq_lib::to_multiset_len(s2);
    if s1.len() == 0 {
        assert(s1.map_values(f) =~= Seq::<B>::empty());
        assert(s2.map_values(f) =~= Seq::<B>::empty());
    } else {
        let x = s1.last();
        let rest = s1.drop_last();
        assert(s1 =~= rest.push(x));
        vstd::seq_lib::to_multiset_build(rest, x);
        assert(s2.to_multiset().count(x) > 0);
        assert(s2.contains(x));
        let k = choose|k: int| 0 <= k < s2.len() && s2[k] == x;
        vstd::seq_lib::to_multiset_remove(s2, k);
        assert(rest.to_multiset() =~= s2.remove(k).to_multiset());
        lemma_map_to_multiset(rest, s2.remove(k), f);
        assert(s1.map_values(f) =~= rest.map_values(f).push(f(x)));
        vstd::seq_lib::to_multiset_build(rest.map_values(f), f(x));
        assert(s2.map_values(f) =~= s2.remove(k).map_values(f).insert(k, f(x)));
        vstd::seq_lib::to_multiset_insert(s2.remove(k).map_values(f), k, f(x));
    }
}

/// Two sorted lists of warnings about the same calls (counted with
/// multiplicity) agree entry by entry, up to comparing equal.
proof fn lemma_sorted_warnings_unique(w1: Seq<CweWarning>, w2: Seq<CweWarning>)
    requires
        warnings_sorted(w1),
        warnings_sorted(w2),
        all_call_warnings(w1),
        all_call_warnings(w2),
        warning_calls(w1).to_multiset() == warning_calls(w2).to_multiset(),
    ensures
        w1.len() == w2.len(),
        forall|i: int| 0 <= i < w1.len() ==> warning_order(#[trigger] w1[i], w2[i]) == Order::Equal,
    decreases w1.len(),
{
    broadcast use vstd::seq_lib::group_to_multiset_ensures;

    vstd::seq_lib::to_multiset_len(warning_calls(w1));
    vstd::seq_lib::to_multiset_len(warning_calls(w2));
    if w1.len() > 0 {
        let c1 = warning_calls(w1);
        let c2 = warning_calls(w2);
        // the call of w1[0] stands in w2 at k, the call of w2[0] in w1 at m
        assert(c1.to_multiset().count(c1[0]) > 0);
        assert(c2.contains(c1[0]));
        let k = choose|k: int| 0 <= k < c2.len() && c2[k] == c1[0];
        assert(c2.to_multiset().count(c2[0]) > 0);
        assert(c1.contains(c2[0]));
        let m = choose|m: int| 0 <= m < c1.len() && c1[m] == c2[0];
        lemma_same_call_equal(w2[k], w1[0], c1[0]);
        lemma_same_call_equal(w1[m], w2[0], c2[0]);
        lemma_warning_order_props(w1[0], w1[m], w2[0]);
        lemma_warning_order_props(w2[0], w2[k], w1[0]);
        lemma_order_equal(w1[0], w2[0], w1[0]);
        assert(warning_order(w1[0], w2[0]) == Order::Equal);
        // every warning of w2 up to k compares equal to w1[0]
        assert forall|i: int| 0 <= i <= k implies warning_order(#[trigger] w2[i], w1[0])
            == Order::Equal by {
            if 0 < i && i < k {
                lemma_warning_order_props(w2[0], w2[i], w2[k]);
                lemma_order_equal(w2[0], w1[0], w2[k]);
                lemma_order_equal(w2[k], w1[0], w2[0]);
                lemma_order_equal(w2[0], w2[k], w2[0]);
                lemma_warning_order_props(w2[i], w2[k], w2[0]);
                lemma_order_equal(w2[0], w2[i], w2[k]);
                lemma_order_equal(w2[i], w2[0], w1[0]);
                lemma_order_equal(w2[i], w2[k], w1[0]);
            } else if i == 0 {
                lemma_order_equal(w1[0], w2[0], w1[0]);
            }
        }
        let r1 = w1.drop_first();
        let r2 = w2.remove(k);
        assert(warning_calls(r1) =~= c1.remove(0));
        assert(warning_calls(r2) =~= c2.remove(k));
        vstd::seq_lib::to_multiset_remove(c1, 0);
        vstd::seq_lib::to_multiset_remove(c2, k);
        assert forall|i: int, j: int| 0 <= i < j < r2.len() implies warning_order(
            #[trigger] r2[i],
            #[trigger] r2[j],
        ) != Order::Greater by {
            let i2 = if i < k { i } else { i + 1 };
            let j2 = if j < k { j } else { j + 1 };
            assert(r2[i] == w2[i2] && r2[j] == w2[j2]);
        }
        assert forall|i: int, j: int| 0 <= i < j < r1.len() implies warning_order(
            #[trigger] r1[i],
            #[trigger] r1[j],
        ) != Order::Greater by {
            assert(r1[i] == w1[i + 1] && r1[j] == w1[j + 1]);
        }
        assert forall|i: int| 0 <= i < r2.len() implies is_warning_for_call(
            #[trigger] r2[i],
            call_of(r2[i]),
        ) by {
            if i < k {
                assert(r2[i] == w2[i]);
            } else {
                assert(r2[i] == w2[i + 1]);
            }
        }
        assert forall|i: int| 0 <= i < r1.len() implies is_warning_for_call(
            #[trigger] r1[i],
            call_of(r1[i]),
        ) by {
            assert(r1[i] == w1[i + 1]);
        }
        lemma_sorted_warnings_unique(r1, r2);
        assert forall|i: int| 0 <= i < w1.len() implies warning_order(#[trigger] w1[i], w2[i])
            == Order::Equal by {
            if i > 0 {
                let j = i - 1;
                assert(warning_order(r1[j], r2[j]) == Order::Equal);
                assert(r1[j] == w1[i]);
                if j < k {
                    assert(r2[j] == w2[j]);
                    // w2[j] and w2[i] both compare equal to w1[0]
                    lemma_order_equal(w2[j], w1[0], w2[i]);
                    lemma_order_equal(w2[i], w1[0], w2[j]);
                    lemma_order_equal(w1[0], w2[i], w2[i]);
                    lemma_order_equal(w2[j], w1[0], w2[i]);
                    lemma_order_equal(w1[i], w2[j], w2[i]);
                } else {
                    assert(r2[j] == w2[i]);
                }
            }
        }
    }
}

/// Two lists of warnings that compare equal entry by entry have the same
/// contents.
proof fn lemma_equal_entries_same_contents(w1: Seq<CweWarning>, w2: Seq<CweWarning>)
    requires
        w1.len() == w2.len(),
        forall|i: int| 0 <= i < w1.len() ==> warning_order(#[trigger] w1[i], w2[i]) == Order::Equal,
    ensures
        warnings_view(w1) == warnings_view(w2),
{
    assert forall|i: int| 0 <= i < w1.len() implies warnings_view(w1)[i] == warnings_view(w2)[i] by {
        lemma_warning_order_equal_inv(w1[i], w2[i]);
    }
    assert(warnings_view(w1) =~= warnings_view(w2));
}

/// The warnings for two lists of calls that hold the same calls (counted with
/// multiplicity, in any order) have the same contents: the generated warnings
/// do not depend on the order of the calls.
pub proof fn lemma_warnings_ignore_call_order(
    w1: Seq<CweWarning>,
    calls1: Seq<CallView>,
    w2: Seq<CweWarning>,
    calls2: Seq<CallView>,
)
    requires
        are_warnings_for_calls(w1, calls1),
        are_warnings_for_calls(w2, calls2),
        calls1.to_multiset() == calls2.to_multiset(),
    ensures
        w1.len() == w2.len(),
        forall|i: int| 0 <= i < w1.len() ==> warning_order(#[trigger] w1[i], w2[i]) == Order::Equal,
        warnings_view(w1) == warnings_view(w2),
{
    lemma_call_warnings_of(w1, calls1);
    lemma_call_warnings_of(w2, calls2);
    lemma_sorted_warnings_unique(w1, w2);
    lemma_equal_entries_same_contents(w1, w2);
}

/// The warnings for a list of calls are warnings for calls, and the calls
/// they are about are the list's, counted with multiplicity.
proof fn lemma_call_warnings_of(w: Seq<CweWarning>, calls: Seq<CallView>)
    requires
        are_warnings_for_calls(w, calls),
    ensures
        all_call_warnings(w),
        warning_calls(w).to_multiset() == calls.to_multiset(),
{
    broadcast use vstd::seq_lib::group_to_multiset_ensures;

    let u = choose|u: Seq<CweWarning>|
        {
            &&& u.len() == calls.len()
            &&& forall|i: int| 0 <= i < calls.len() ==> is_warning_for_call(#[trigger] u[i], calls[i])
            &&& u.to_multiset() == w.to_multiset()
        };
    assert(warning_calls(u) =~= calls) by {
        assert forall|i: int| 0 <= i < calls.len() implies warning_calls(u)[i] == calls[i] by {
            assert(is_warning_for_call(u[i], calls[i]));
        }
    }
    lemma_map_to_multiset(u, w, |x: CweWarning| call_of(x));
    assert forall|i: int| 0 <= i < w.len() implies is_warning_for_call(
        #[trigger] w[i],
        call_of(w[i]),
    ) by {
        assert(w.to_multiset().count(w[i]) > 0);
        assert(u.contains(w[i]));
        let j = choose|j: int| 0 <= j < u.len() && u[j] == w[i];
        assert(is_warning_for_call(u[j], calls[j]));
    }
}

/// Generating the warnings for two lists of calls together gives the
/// warnings of each list merged and sorted: the same contents, entry by entry.
pub proof fn lemma_warnings_of_concatenated_calls(
    wa: Seq<CweWarning>,
    a: Seq<CallView>,
    wb: Seq<CweWarning>,
    b: Seq<CallView>,
    wab: Seq<CweWarning>,
    merged: Seq<CweWarning>,
)
    requires
        are_warnings_for_calls(wa, a),
        are_warnings_for_calls(wb, b),
        are_warnings_for_calls(wab, a + b),
        warnings_sorted(merged),
        merged.to_multiset() == (wa + wb).to_multiset(),
    ensures
        wab.len() == merged.len(),
        forall|i: int| 0 <= i < wab.len() ==> warning_order(#[trigger] wab[i], merged[i]) == Order::Equal,
        warnings_view(wab) == warnings_view(merged),
{
    broadcast use vstd::seq_lib::group_to_multiset_ensures;

    lemma_call_warnings_of(wa, a);
    lemma_call_warnings_of(wb, b);
    lemma_call_warnings_of(wab, a + b);
    assert(warning_calls(wa + wb) =~= warning_calls(wa) + warning_calls(wb));
    vstd::seq_lib::lemma_multiset_commutative(warning_calls(wa), warning_calls(wb));
    vstd::seq_lib::lemma_multiset_commutative(a, b);
    lemma_map_to_multiset(merged, wa + wb, |x: CweWarning| call_of(x));
    assert(all_call_warnings(merged)) by {
        assert forall|i: int| 0 <= i < merged.len() implies is_warning_for_call(
            #[trigger] merged[i],
            call_of(merged[i]),
        ) by {
            assert(merged.to_multiset().count(merged[i]) > 0);
            assert((wa + wb).contains(merged[i]));
            let j = choose|j: int| 0 <= j < (wa + wb).len() && (wa + wb)[j] == merged[i];
            if j < wa.len() {
                assert(wa[j] == merged[i]);
            } else {
                assert(wb[j - wa.len()] == merged[i]);
            }
        }
    }
    lemma_sorted_warnings_unique(wab, merged);
    lemma_equal_entries_same_contents(wab, merged);
}

/// Some warning of the list is the warning for `call`.
pub open spec fn has_warning_for(warnings: Seq<CweWarning>, call: CallView) -> bool {
    exists|w: int| 0 <= w < warnings.len() && is_warning_for_call(#[trigger] warnings[w], call)
}

/// The warning is the warning for some call of the list.
pub open spec fn warns_of_some(w: CweWarning, calls: Seq<CallView>) -> bool {
    exists|q: int| 0 <= q < calls.len() && is_warning_for_call(w, #[trigger] calls[q])
}

/// The warnings for a list of calls hold a warning for every call, and every
/// warning is the warning for one of the calls.
pub proof fn lemma_warnings_cover_calls(warnings: Seq<CweWarning>, calls: Seq<CallView>)
    requires
        are_warnings_for_calls(warnings, calls),
    ensures
        forall|q: int| 0 <= q < calls.len() ==> has_warning_for(warnings, #[trigger] calls[q]),
        forall|w: int| 0 <= w < warnings.len() ==> warns_of_some(#[trigger] warnings[w], calls),
{
    broadcast use vstd::seq_lib::group_to_multiset_ensures;

    let u = choose|u: Seq<CweWarning>|
        {
            &&& u.len() == calls.len()
            &&& forall|i: int| 0 <= i < calls.len() ==> is_warning_for_call(#[trigger] u[i], calls[i])
            &&& u.to_multiset() == warnings.to_multiset()
        };
    assert forall|q: int| 0 <= q < calls.len() implies has_warning_for(warnings, #[trigger] calls[q]) by {
        assert(is_warning_for_call(u[q], calls[q]));
        assert(u.to_multiset().count(u[q]) > 0);
        assert(warnings.contains(u[q]));
        let w = choose|w: int| 0 <= w < warnings.len() && warnings[w] == u[q];
        assert(is_warning_for_call(warnings[w], calls[q]));
    }
    assert forall|w: int| 0 <= w < warnings.len() implies warns_of_some(#[trigger] warnings[w], calls) by {
        assert(warnings.to_multiset().count(warnings[w]) > 0);
        assert(u.contains(warnings[w]));
        let q = choose|q: int| 0 <= q < u.len() && u[q] == warnings[w];
        assert(is_warning_for_call(u[q], calls[q]));
    }
}

/// Whether some string of `list` equals `s`.
fn contains_string(list: &Vec<String>, s: &String) -> (r: bool)
    ensures
        r == string_in(list@, s@),
{
    for i in 0..list.len()
        invariant
            forall|j: int| 0 <= j < i ==> (#[trigger] list@[j])@ != s@,
    {
        if list[i] == *s {
            return true;
        }
    }
    false
}

/// Filter external symbols by dangerous symbols: the term identifiers and
/// names of the extern symbols (in their order) whose name is one of `symbols`.
pub fn resolve_symbols(external_symbols: &Vec<ExternSymbol>, symbols: &Vec<String>) -> (r: Vec<
    (Tid, String),
>)
    ensures
        symbol_entries_view(r@) == dangerous_symbols_spec(external_symbols@, symbols@),
        forall|tid: TidView, name: Seq<char>|
            #[trigger] symbol_entries_view(r@).contains((tid, name)) <==> (exists|m: int|
                0 <= m < external_symbols@.len() && (#[trigger] external_symbols@[m]).tid@ == tid
                    && external_symbols@[m].name@ == name) && (exists|i: int|
                0 <= i < symbols@.len() && (#[trigger] symbols@[i])@ == name),
{
    let mut dangerous: Vec<(Tid, String)> = Vec::new();
    for i in 0..external_symbols.len()
        invariant
            symbol_entries_view(dangerous@) == dangerous_symbols_spec(
                external_symbols@.take(i as int),
                symbols@,
            ),
    {
        let symbol = &external_symbols[i];
        proof {
            assert(external_symbols@.take(i + 1).drop_last() =~= external_symbols@.take(i as int));
        }
        if contains_string(symbols, &symbol.name) {
            dangerous.push((symbol.tid.copy_tid(), symbol.name.clone()));
        }
        assert(symbol_entries_view(dangerous@) =~= dangerous_symbols_spec(
            external_symbols@.take(i + 1),
            symbols@,
        ));
    }
    assert(external_symbols@.take(external_symbols@.len() as int) =~= external_symbols@);
    proof {
        assert forall|tid: TidView, name: Seq<char>|
            #[trigger] symbol_entries_view(dangerous@).contains((tid, name)) <==> (exists|m: int|
                0 <= m < external_symbols@.len() && (#[trigger] external_symbols@[m]).tid@ == tid
                    && external_symbols@[m].name@ == name) && (exists|i: int|
                0 <= i < symbols@.len() && (#[trigger] symbols@[i])@ == name) by {
            lemma_resolved_symbols(external_symbols@, symbols@, tid, name);
        }
    }
    dangerous
}

/// The name that `symbols` gives the term identifier `tid`, if any.
fn find_symbol(symbols: &Vec<(Tid, String)>, tid: &Tid) -> (r: Option<String>)
    ensures
        match r {
            Some(name) => lookup_symbol(symbol_entries_view(symbols@), tid@) == Some(name@),
            None => lookup_symbol(symbol_entries_view(symbols@), tid@) is None,
        },
{
    let mut i = symbols.len();
    assert(symbols@.take(i as int) =~= symbols@);
    while i > 0
        invariant
            i <= symbols@.len(),
            lookup_symbol(symbol_entries_view(symbols@), tid@) == lookup_symbol(
                symbol_entries_view(symbols@.take(i as int)),
                tid@,
            ),
        decreases i,
    {
        proof {
            assert(symbol_entries_view(symbols@.take(i as int)).drop_last() =~= symbol_entries_view(
                symbols@.take(i - 1),
            ));
        }
        i = i - 1;
        if symbols[i].0 == *tid {
            return Some(symbols[i].1.clone());
        }
    }
    None
}

/// The calls in `sub` to one of `symbols`: the name of `sub`, the term
/// identifier of the call instruction and the name of the called symbol.
pub fn get_calls_to_symbols(sub: &Term<Sub>, symbols: &Vec<(Tid, String)>) -> (r: Vec<
    (String, Tid, String),
>)
    ensures
        calls_view(r@) == block_calls(sub.term.name@, sub.term.blocks@, symbol_entries_view(symbols@)),
        forall|j: int, k: int, name: Seq<char>|
            0 <= j < sub.term.blocks@.len() && 0 <= k < sub.term.blocks@[j].term.jmps@.len()
                && #[trigger] call_resolves(
                sub.term.blocks@[j].term.jmps@[k],
                symbol_entries_view(symbols@),
                name,
            ) ==> calls_view(r@).contains(
                (sub.term.name@, sub.term.blocks@[j].term.jmps@[k].tid@, name),
            ),
        forall|q: int|
            #![trigger r@[q]]
            0 <= q < r@.len() ==> exists|j: int, k: int|
                0 <= j < sub.term.blocks@.len() && 0 <= k < sub.term.blocks@[j].term.jmps@.len()
                    && call_resolves(
                    #[trigger] sub.term.blocks@[j].term.jmps@[k],
                    symbol_entries_view(symbols@),
                    calls_view(r@)[q].2,
                ) && calls_view(r@)[q] == (
                    sub.term.name@,
                    sub.term.blocks@[j].term.jmps@[k].tid@,
                    calls_view(r@)[q].2,
                ),
{
    let ghost syms = symbol_entries_view(symbols@);
    let ghost name = sub.term.name@;
    let mut calls: Vec<(String, Tid, String)> = Vec::new();
    let blocks = &sub.term.blocks;
    for i in 0..blocks.len()
        invariant
            syms == symbol_entries_view(symbols@),
            name == sub.term.name@,
            *blocks == sub.term.blocks,
            calls_view(calls@) == block_calls(name, blocks@.take(i as int), syms),
    {
        let jmps = &blocks[i].term.jmps;
        let ghost before = calls_view(calls@);
        for k in 0..jmps.len()
            invariant
                syms == symbol_entries_view(symbols@),
                name == sub.term.name@,
                i < blocks@.len(),
                *jmps == blocks@[i as int].term.jmps,
                calls_view(calls@) == before + jmp_calls(name, jmps@.take(k as int), syms),
        {
            let jmp = &jmps[k];
            proof {
                assert(jmps@.take(k + 1).drop_last() =~= jmps@.take(k as int));
                assert(jmps@.take(k + 1).last() == jmps@[k as int]);
            }
            let ghost calls_before = calls@;
            match &jmp.term {
                Jmp::Call { target, .. } => {
                    match find_symbol(symbols, target) {
                        Some(symbol_name) => {
                            calls.push((sub.term.name.clone(), jmp.tid.copy_tid(), symbol_name));
                        },
                        None => {},
                    }
                },
                _ => {},
            }
            proof {
                let last_calls = jmp_calls(name, jmps@.take(k + 1), syms);
                if calls@.len() == calls_before.len() + 1 {
                    assert(calls_view(calls@) =~= calls_view(calls_before).push(
                        calls_view(calls@).last(),
                    ));
                } else {
                    assert(calls@ == calls_before);
                }
            }
            assert(calls_view(calls@) =~= before + jmp_calls(name, jmps@.take(k + 1), syms));
        }
        proof {
            assert(jmps@.take(jmps@.len() as int) =~= jmps@);
            assert(blocks@.take(i + 1).drop_last() =~= blocks@.take(i as int));
            assert(blocks@.take(i + 1).last() == blocks@[i as int]);
        }
    }
    assert(blocks@.take(blocks@.len() as int) =~= blocks@);
    proof {
        assert forall|j: int, k: int, n: Seq<char>|
            0 <= j < sub.term.blocks@.len() && 0 <= k < sub.term.blocks@[j].term.jmps@.len()
                && #[trigger] call_resolves(sub.term.blocks@[j].term.jmps@[k], syms, n) implies calls_view(
            calls@,
        ).contains((sub.term.name@, sub.term.blocks@[j].term.jmps@[k].tid@, n)) by {
            lemma_block_calls_complete(name, sub.term.blocks@, syms, j, k, n);
        }
        assert forall|q: int|
            #![trigger calls@[q]]
            0 <= q < calls@.len() implies exists|j: int, k: int|
            0 <= j < sub.term.blocks@.len() && 0 <= k < sub.term.blocks@[j].term.jmps@.len()
                && call_resolves(
                #[trigger] sub.term.blocks@[j].term.jmps@[k],
                syms,
                calls_view(calls@)[q].2,
            ) && calls_view(calls@)[q] == (
                sub.term.name@,
                sub.term.blocks@[j].term.jmps@[k].tid@,
                calls_view(calls@)[q].2,
            ) by {
            lemma_block_calls_sound(name, sub.term.blocks@, syms, q);
        }
    }
    calls
}

/// For each subroutine and each found dangerous symbol, check for calls to the
/// corresponding symbol.
pub fn get_calls(subfunctions: &Vec<Term<Sub>>, dangerous_symbols: &Vec<(Tid, String)>) -> (r: Vec<
    (String, Tid, String),
>)
    ensures
        calls_view(r@) == program_calls(subfunctions@, symbol_entries_view(dangerous_symbols@)),
        forall|i: int, j: int, k: int, name: Seq<char>|
            0 <= i < subfunctions@.len() && 0 <= j < subfunctions@[i].term.blocks@.len() && 0 <= k
                < subfunctions@[i].term.blocks@[j].term.jmps@.len() && #[trigger] call_resolves(
                subfunctions@[i].term.blocks@[j].term.jmps@[k],
                symbol_entries_view(dangerous_symbols@),
                name,
            ) ==> calls_view(r@).contains(
                (
                    subfunctions@[i].term.name@,
                    subfunctions@[i].term.blocks@[j].term.jmps@[k].tid@,
                    name,
                ),
            ),
        forall|q: int|
            #![trigger r@[q]]
            0 <= q < r@.len() ==> exists|i: int, j: int, k: int|
                0 <= i < subfunctions@.len() && 0 <= j < subfunctions@[i].term.blocks@.len() && 0
                    <= k < subfunctions@[i].term.blocks@[j].term.jmps@.len() && call_resolves(
                    #[trigger] subfunctions@[i].term.blocks@[j].term.jmps@[k],
                    symbol_entries_view(dangerous_symbols@),
                    calls_view(r@)[q].2,
                ) && calls_view(r@)[q] == (
                    subfunctions@[i].term.name@,
                    subfunctions@[i].term.blocks@[j].term.jmps@[k].tid@,
                    calls_view(r@)[q].2,
                ),
{
    let ghost syms = symbol_entries_view(dangerous_symbols@);
    let mut calls: Vec<(String, Tid, String)> = Vec::new();
    for i in 0..subfunctions.len()
        invariant
            syms == symbol_entries_view(dangerous_symbols@),
            calls_view(calls@) == program_calls(subfunctions@.take(i as int), syms),
    {
        let ghost before = calls@;
        let mut sub_calls = get_calls_to_symbols(&subfunctions[i], dangerous_symbols);
        let ghost added = sub_calls@;
        calls.append(&mut sub_calls);
        proof {
            assert(subfunctions@.take(i + 1).drop_last() =~= subfunctions@.take(i as int));
            assert(subfunctions@.take(i + 1).last() == subfunctions@[i as int]);
            assert(calls_view(calls@) =~= calls_view(before) + calls_view(added));
        }
    }
    assert(subfunctions@.take(subfunctions@.len() as int) =~= subfunctions@);
    proof {
        assert forall|i: int, j: int, k: int, n: Seq<char>|
            0 <= i < subfunctions@.len() && 0 <= j < subfunctions@[i].term.blocks@.len() && 0 <= k
                < subfunctions@[i].term.blocks@[j].term.jmps@.len() && #[trigger] call_resolves(
                subfunctions@[i].term.blocks@[j].term.jmps@[k],
                syms,
                n,
            ) implies calls_view(calls@).contains(
            (subfunctions@[i].term.name@, subfunctions@[i].term.blocks@[j].term.jmps@[k].tid@, n),
        ) by {
            lemma_program_calls_complete(subfunctions@, syms, i, j, k, n);
        }
        assert forall|q: int|
            #![trigger calls@[q]]
            0 <= q < calls@.len() implies exists|i: int, j: int, k: int|
            0 <= i < subfunctions@.len() && 0 <= j < subfunctions@[i].term.blocks@.len() && 0 <= k
                < subfunctions@[i].term.blocks@[j].term.jmps@.len() && call_resolves(
                #[trigger] subfunctions@[i].term.blocks@[j].term.jmps@[k],
                syms,
                calls_view(calls@)[q].2,
            ) && calls_view(calls@)[q] == (
                subfunctions@[i].term.name@,
                subfunctions@[i].term.blocks@[j].term.jmps@[k].tid@,
                calls_view(calls@)[q].2,
            ) by {
            lemma_program_calls_sound(subfunctions@, syms, q);
        }
    }
    calls
}

/// The warning for one dangerous call.
fn warning_for_call(sub_name: &String, jmp_tid: &Tid, target_name: &String) -> (w: CweWarning)
    ensures
        is_warning_for_call(w, (sub_name@, jmp_tid@, target_name@)),
{
    let address = jmp_tid.address.clone();
    let mut description = String::from_str("(Use of Potentially Dangerous Function) ");
    description.append(sub_name.as_str());
    description.append(" (");
    description.append(address.as_str());
    description.append(") -> ");
    description.append(target_name.as_str());
    let mut other_entry: Vec<String> = Vec::new();
    other_entry.push(String::from_str("dangerous_function"));
    other_entry.push(target_name.clone());
    let mut other: Vec<Vec<String>> = Vec::new();
    other.push(other_entry);
    let mut addresses: Vec<String> = Vec::new();
    addresses.push(address);
    let mut tids: Vec<String> = Vec::new();
    tids.push(jmp_tid.id.clone());
    let mut symbols: Vec<String> = Vec::new();
    symbols.push(sub_name.clone());
    let w = CweWarning::new(
        String::from_str(CWE_MODULE_NAME),
        String::from_str(CWE_MODULE_VERSION),
        description,
    ).addresses(addresses).tids(tids).symbols(symbols).other(other);
    assert(w.description@ =~= "(Use of Potentially Dangerous Function) "@ + sub_name@ + " ("@
        + jmp_tid@.address + ") -> "@ + target_name@);
    w
}

/// Generate cwe warnings for potentially dangerous function calls, sorted.
pub fn generate_cwe_warnings(dangerous_calls: Vec<(String, Tid, String)>) -> (r: Vec<CweWarning>)
    ensures
        are_warnings_for_calls(r@, calls_view(dangerous_calls@)),
{
    let mut cwe_warnings: Vec<CweWarning> = Vec::new();
    for i in 0..dangerous_calls.len()
        invariant
            cwe_warnings@.len() == i,
            forall|j: int|
                0 <= j < i ==> is_warning_for_call(
                    #[trigger] cwe_warnings@[j],
                    calls_view(dangerous_calls@)[j],
                ),
    {
        let (sub_name, jmp_tid, target_name) = &dangerous_calls[i];
        let w = warning_for_call(sub_name, jmp_tid, target_name);
        cwe_warnings.push(w);
    }
    let ghost unsorted = cwe_warnings@;
    let sorted = sort_warnings(cwe_warnings);
    assert(unsorted.len() == calls_view(dangerous_calls@).len());
    sorted
}

/// Iterate through all function calls inside the program and flag calls to
/// those functions that are marked as unsafe via the configuration.
pub fn check_cwe(program: &Program, config: &Config) -> (r: (Vec<LogMessage>, Vec<CweWarning>))
    ensures
        r.0@.len() == 0,
        are_warnings_for_calls(
            r.1@,
            program_calls(
                program.subs@,
                dangerous_symbols_spec(program.extern_symbols@, config.symbols@),
            ),
        ),
        forall|i: int, j: int, k: int, name: Seq<char>|
            0 <= i < program.subs@.len() && 0 <= j < program.subs@[i].term.blocks@.len() && 0 <= k
                < program.subs@[i].term.blocks@[j].term.jmps@.len() && #[trigger] call_resolves(
                program.subs@[i].term.blocks@[j].term.jmps@[k],
                dangerous_symbols_spec(program.extern_symbols@, config.symbols@),
                name,
            ) ==> has_warning_for(
                r.1@,
                (
                    program.subs@[i].term.name@,
                    program.subs@[i].term.blocks@[j].term.jmps@[k].tid@,
                    name,
                ),
            ),
        forall|w: int|
            0 <= w < r.1@.len() ==> warns_of_some(
                #[trigger] r.1@[w],
                program_calls(
                    program.subs@,
                    dangerous_symbols_spec(program.extern_symbols@, config.symbols@),
                ),
            ),
{
    let dangerous_symbols = resolve_symbols(&program.extern_symbols, &config.symbols);
    let dangerous_calls = get_calls(&program.subs, &dangerous_symbols);
    let warnings = generate_cwe_warnings(dangerous_calls);
    proof {
        let syms = dangerous_symbols_spec(program.extern_symbols@, config.symbols@);
        let calls = program_calls(program.subs@, syms);
        lemma_warnings_cover_calls(warnings@, calls);
        assert forall|i: int, j: int, k: int, name: Seq<char>|
            0 <= i < program.subs@.len() && 0 <= j < program.subs@[i].term.blocks@.len() && 0 <= k
                < program.subs@[i].term.blocks@[j].term.jmps@.len() && #[trigger] call_resolves(
                program.subs@[i].term.blocks@[j].term.jmps@[k],
                syms,
                name,
            ) implies has_warning_for(
            warnings@,
            (
                program.subs@[i].term.name@,
                program.subs@[i].term.blocks@[j].term.jmps@[k].tid@,
                name,
            ),
        ) by {
            lemma_program_calls_complete(program.subs@, syms, i, j, k, name);
            let c = (
                program.subs@[i].term.name@,
                program.subs@[i].term.blocks@[j].term.jmps@[k].tid@,
                name,
            );
            let q = choose|q: int| 0 <= q < calls.len() && calls[q] == c;
            assert(has_warning_for(warnings@, calls[q]));
        }
    }
    (Vec::new(), warnings)
}

} // verus!
