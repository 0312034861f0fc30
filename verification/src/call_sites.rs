//! Turning the calls a parser found in one file into call edges: the
//! callee becomes the id of the file's symbol of that name (the last one,
//! when several share it) or stays the bare name; a call without a known
//! caller is attributed to every function or method whose lines contain it.
use vstd::prelude::*;

use crate::types::{CallSite, Symbol, SymbolKind};

verus! {

/// An edge derived from a call: the index of the call in the file's list,
/// the caller id and the callee id.
#[derive(Debug, Clone, PartialEq, Eq)]
pub struct ResolvedCall {
    /// Which call of the file's list the edge comes from.
    pub call_index: usize,
    /// Calling symbol id.
    pub caller_id: String,
    /// Called symbol id (or the bare name when the file has no such symbol).
    pub callee_id: String,
}

/// An edge as plain values.
pub type ResolvedView = (int, Seq<char>, Seq<char>);

impl ResolvedCall {
    /// The edge as plain values.
    pub open spec fn view_resolved(&self) -> ResolvedView {
        (self.call_index as int, self.caller_id@, self.callee_id@)
    }
}

/// The contents of a list of edges.
pub open spec fn resolved_views(v: Seq<ResolvedCall>) -> Seq<ResolvedView> {
    v.map_values(|r: ResolvedCall| r.view_resolved())
}

/// The id the callee name resolves to: the id of the last symbol of that
/// name, else the name itself.
pub open spec fn callee_id_of(symbols: Seq<Symbol>, name: Seq<char>) -> Seq<char>
    decreases symbols.len(),
{
    if symbols.len() == 0 {
        name
    } else if symbols.last().name@ == name {
        symbols.last().id@
    } else {
        callee_id_of(symbols.drop_last(), name)
    }
}

/// A function or method whose known line span contains `line`.
pub open spec fn encloses(s: Symbol, line: u64) -> bool {
    &&& (s.kind is Function || s.kind is Method)
    &&& line > 0
    &&& s.location.line > 0
    &&& s.location.end_line > 0
    &&& s.location.line <= line <= s.location.end_line
}

/// The callers a call without caller id is attributed to, in symbol order.
pub open spec fn enclosing_ids(symbols: Seq<Symbol>, line: u64) -> Seq<Seq<char>>
    decreases symbols.len(),
{
    if symbols.len() == 0 {
        Seq::empty()
    } else {
        let prev = enclosing_ids(symbols.drop_last(), line);
        if encloses(symbols.last(), line) { prev.push(symbols.last().id@) } else { prev }
    }
}

/// The edges one call gives: none for a call without callee name; one
/// from the known caller; else one from each enclosing function or method.
pub open spec fn call_edges_of(symbols: Seq<Symbol>, i: int, call: CallSite) -> Seq<ResolvedView> {
    let callee = callee_id_of(symbols, call.callee_name@);
    if call.callee_name@.len() == 0 {
        Seq::empty()
    } else if call.caller_id@.len() > 0 {
        seq![(i, call.caller_id@, callee)]
    } else {
        enclosing_ids(symbols, call.location.line).map_values(|c: Seq<char>| (i, c, callee))
    }
}

/// The edges of all calls of a file, call after call.
pub open spec fn file_call_edges(symbols: Seq<Symbol>, calls: Seq<CallSite>) -> Seq<ResolvedView>
    decreases calls.len(),
{
    if calls.len() == 0 {
        Seq::empty()
    } else {
        file_call_edges(symbols, calls.drop_last()) + call_edges_of(symbols, calls.len() - 1, calls.last())
    }
}

/// Resolves a callee name (see `callee_id_of`).
fn resolve_callee(symbols: &[Symbol], name: &String) -> (r: String)
    ensures
        r@ == callee_id_of(symbols@, name@),
{
    let mut k = symbols.len();
    proof {
        assert(symbols@.take(k as int) =~= symbols@);
    }
    while k > 0
        invariant
            k <= symbols.len(),
            callee_id_of(symbols@, name@) == callee_id_of(symbols@.take(k as int), name@),
        decreases k,
    {
        proof {
            assert(symbols@.take(k as int).drop_last() =~= symbols@.take(k - 1));
            assert(symbols@.take(k as int).last() == symbols@[k - 1]);
        }
        if symbols[k - 1].name == *name {
            return symbols[k - 1].id.clone();
        }
        k = k - 1;
    }
    name.clone()
}

/// Whether `s` is a function or method whose span contains `line`.
fn encloses_exec(s: &Symbol, line: u64) -> (b: bool)
    ensures
        b == encloses(*s, line),
{
    let callable = match s.kind {
        SymbolKind::Function => true,
        SymbolKind::Method => true,
        _ => false,
    };
    callable && line > 0 && s.location.line > 0 && s.location.end_line > 0 && s.location.line <= line
        && line <= s.location.end_line
}

/// The call edges of one file's calls (see `file_call_edges`); each edge
/// names the call it comes from, whose location, type and weight it keeps.
pub fn resolve_call_sites(symbols: &[Symbol], calls: &[CallSite]) -> (r: Vec<ResolvedCall>)
    ensures
        resolved_views(r@) == file_call_edges(symbols@, calls@),
{
    let mut r: Vec<ResolvedCall> = Vec::new();
    let mut i: usize = 0;
    proof {
        assert(calls@.take(0) =~= Seq::<CallSite>::empty());
        assert(resolved_views(r@) =~= Seq::<ResolvedView>::empty());
    }
    while i < calls.len()
        invariant
            i <= calls.len(),
            resolved_views(r@) == file_call_edges(symbols@, calls@.take(i as int)),
        decreases calls.len() - i,
    {
        let call = &calls[i];
        proof {
            assert(calls@.take(i + 1).drop_last() =~= calls@.take(i as int));
            assert(calls@.take(i + 1).last() == *call);
        }
        let ghost before = resolved_views(r@);
        let name_chars = crate::text::chars_of(call.callee_name.as_str());
        let caller_chars = crate::text::chars_of(call.caller_id.as_str());
        if name_chars.len() == 0 {
            proof {
                assert(before + call_edges_of(symbols@, i as int, *call) =~= before);
            }
        } else {
            let callee = resolve_callee(symbols, &call.callee_name);
            if caller_chars.len() > 0 {
                r.push(ResolvedCall { call_index: i, caller_id: call.caller_id.clone(), callee_id: callee });
                proof {
                    assert(resolved_views(r@) =~= before + call_edges_of(symbols@, i as int, *call));
                }
            } else {
                let line = call.location.line;
                let ghost cv = callee@;
                let mut j: usize = 0;
                proof {
                    assert(symbols@.take(0) =~= Seq::<Symbol>::empty());
                    assert(before + enclosing_ids(symbols@.take(0), line).map_values(|c: Seq<char>| (i as int, c, cv)) =~= before);
                }
                while j < symbols.len()
                    invariant
                        j <= symbols.len(),
                        cv == callee@,
                        resolved_views(r@) == before + enclosing_ids(symbols@.take(j as int), line).map_values(
                            |c: Seq<char>| (i as int, c, cv),
                        ),
                    decreases symbols.len() - j,
                {
                    proof {
                        assert(symbols@.take(j + 1).drop_last() =~= symbols@.take(j as int));
                        assert(symbols@.take(j + 1).last() == symbols@[j as int]);
                    }
                    let ghost mid = resolved_views(r@);
                    if encloses_exec(&symbols[j], line) {
                        r.push(ResolvedCall { call_index: i, caller_id: symbols[j].id.clone(), callee_id: callee.clone() });
                        proof {
                            assert(resolved_views(r@) =~= mid.push((i as int, symbols@[j as int].id@, cv)));
                            assert(enclosing_ids(symbols@.take(j + 1), line) == enclosing_ids(symbols@.take(j as int), line).push(
                                symbols@[j as int].id@,
                            ));
                            assert(resolved_views(r@) =~= before + enclosing_ids(symbols@.take(j + 1), line).map_values(
                                |c: Seq<char>| (i as int, c, cv),
                            ));
                        }
                    }
                    j = j + 1;
                }
                proof {
                    assert(symbols@.take(j as int) =~= symbols@);
                }
            }
        }
        i = i + 1;
    }
    proof {
        assert(calls@.take(i as int) =~= calls@);
    }
    r
}

} // verus!
