//! Checks that what comes from outside is consistent.

use rustc_hash::FxHashSet;
use vstd::prelude::*;

use crate::chunk_cycles;
use crate::chunks::{ChunkGraph, ChunkIdx};
use crate::fx;
use crate::link::{
    LinkStageOutput, LinkingMetadata, ModuleIdx, NormalModule, ResolvedExport, StmtInfo,
    SymbolOrMemberExprRef, SymbolRef, SymbolRefDb,
};

verus! {

impl SymbolRefDb {
    /// Whether the table holds the symbol.
    pub fn has(&self, symbol_ref: SymbolRef) -> (found: bool)
        ensures
            found == self.holds(symbol_ref),
    {
        symbol_ref.owner < self.links.len() && symbol_ref.symbol
            < self.links[symbol_ref.owner].len()
    }

    /// Whether there is a table for each module, and every symbol leads to a symbol.
    pub fn is_consistent(&self, module_count: usize) -> (consistent: bool)
        ensures
            consistent == self.wf(module_count as nat),
    {
        if self.links.len() != module_count {
            return false;
        }
        let mut owner: usize = 0;
        while owner < self.links.len()
            invariant
                self.links@.len() == module_count,
                owner <= self.links@.len(),
                forall|symbol_ref: SymbolRef|
                    #![trigger self.link(symbol_ref)]
                    symbol_ref.owner < owner && self.holds(symbol_ref) ==> self.holds(
                        self.link(symbol_ref).canonical,
                    ) && self.holds(self.link(symbol_ref).resolving_namespace),
            decreases self.links.len() - owner,
        {
            let mut symbol: usize = 0;
            while symbol < self.links[owner].len()
                invariant
                    self.links@.len() == module_count,
                    owner < self.links@.len(),
                    symbol <= self.links@[owner as int]@.len(),
                    forall|symbol_ref: SymbolRef|
                        #![trigger self.link(symbol_ref)]
                        (symbol_ref.owner < owner || (symbol_ref.owner == owner
                            && symbol_ref.symbol < symbol)) && self.holds(symbol_ref)
                            ==> self.holds(self.link(symbol_ref).canonical) && self.holds(
                            self.link(symbol_ref).resolving_namespace,
                        ),
                decreases self.links@[owner as int]@.len() - symbol,
            {
                let link = self.links[owner][symbol];
                let ghost here = SymbolRef { owner, symbol };
                assert(self.link(here) == link);
                if !self.has(link.canonical) || !self.has(link.resolving_namespace) {
                    assert(self.holds(here));
                    return false;
                }
                symbol = symbol + 1;
            }
            owner = owner + 1;
        }
        true
    }
}

/// Whether the table holds all symbols of `refs`.
fn all_held(refs: &Vec<SymbolRef>, db: &SymbolRefDb) -> (held: bool)
    ensures
        held == forall|i: int| 0 <= i < refs@.len() ==> db.holds(#[trigger] refs@[i]),
{
    let mut i: usize = 0;
    while i < refs.len()
        invariant
            i <= refs@.len(),
            forall|j: int| 0 <= j < i ==> db.holds(#[trigger] refs@[j]),
        decreases refs.len() - i,
    {
        if !db.has(refs[i]) {
            assert(!db.holds(refs@[i as int]));
            return false;
        }
        i = i + 1;
    }
    true
}

/// Whether no other export from position `from` on has the name of the export at `k`.
fn name_is_unique(exports: &Vec<ResolvedExport>, k: usize, from: usize) -> (unique: bool)
    requires
        k < exports@.len(),
    ensures
        unique == forall|j: int|
            from <= j < exports@.len() ==> (#[trigger] exports@[j]).name@ != exports@[k as int].name@,
{
    let mut j: usize = from;
    while j < exports.len()
        invariant
            k < exports@.len(),
            from <= j,
            forall|i: int|
                from <= i < j && i < exports@.len() ==> (#[trigger] exports@[i]).name@
                    != exports@[k as int].name@,
        decreases exports.len() - j,
    {
        if exports[j].name == exports[k].name {
            assert(exports@[j as int].name@ == exports@[k as int].name@);
            return false;
        }
        j = j + 1;
    }
    true
}

impl LinkingMetadata {
    /// Whether the symbols of the exports are in `db`, and no name is exported twice.
    fn exports_are_consistent(&self, db: &SymbolRefDb) -> (consistent: bool)
        ensures
            consistent == self.exports_wf(*db),
    {
        let exports: &Vec<ResolvedExport> = &self.resolved_exports;
        let mut k: usize = 0;
        while k < exports.len()
            invariant
                exports@ == self.resolved_exports@,
                k <= exports@.len(),
                forall|i: int| 0 <= i < k ==> db.holds((#[trigger] exports@[i]).symbol_ref),
                forall|i: int, j: int|
                    0 <= i < j < exports@.len() && i < k ==> (#[trigger] exports@[i]).name@ != (
                    #[trigger] exports@[j]).name@,
            decreases exports.len() - k,
        {
            if !db.has(exports[k].symbol_ref) {
                assert(!db.holds(self.resolved_exports@[k as int].symbol_ref));
                return false;
            }
            if !name_is_unique(exports, k, k + 1) {
                proof {
                    let j = choose|j: int|
                        k + 1 <= j < exports@.len() && (#[trigger] exports@[j]).name@
                            == exports@[k as int].name@;
                    assert(self.resolved_exports@[k as int].name@
                        == self.resolved_exports@[j].name@);
                }
                return false;
            }
            k = k + 1;
        }
        true
    }

    /// Whether what linking made of the member expressions is in `db`.
    fn resolutions_are_consistent(&self, db: &SymbolRefDb) -> (consistent: bool)
        ensures
            consistent == self.resolutions_wf(*db),
    {
        let mut k: usize = 0;
        while k < self.resolved_member_expr_refs.len()
            invariant
                k <= self.resolved_member_expr_refs@.len(),
                forall|i: int|
                    #![trigger self.resolved_member_expr_refs@[i]]
                    0 <= i < k ==> (self.resolved_member_expr_refs@[i] matches Some(resolution)
                        ==> {
                        &&& resolution.resolved matches Some(symbol_ref) ==> db.holds(symbol_ref)
                        &&& forall|d: int|
                            0 <= d < resolution.depended_refs@.len() ==> db.holds(
                                #[trigger] resolution.depended_refs@[d],
                            )
                    }),
            decreases self.resolved_member_expr_refs.len() - k,
        {
            if let Some(resolution) = &self.resolved_member_expr_refs[k] {
                assert(self.resolved_member_expr_refs@[k as int] == Some(*resolution));
                if let Some(symbol_ref) = resolution.resolved {
                    if !db.has(symbol_ref) {
                        return false;
                    }
                }
                if !all_held(&resolution.depended_refs, db) {
                    return false;
                }
            }
            k = k + 1;
        }
        true
    }
}

impl NormalModule {
    /// Whether the imports lead into a module table of `module_count` modules, and what the module
    /// imports by name is in `db`.
    pub fn is_consistent(&self, module_count: usize, db: &SymbolRefDb) -> (consistent: bool)
        ensures
            consistent == self.wf(module_count as nat, *db),
    {
        let mut k: usize = 0;
        while k < self.import_records.len()
            invariant
                k <= self.import_records@.len(),
                forall|i: int|
                    #![trigger self.import_records@[i]]
                    0 <= i < k ==> (self.import_records@[i].resolved_module matches Some(importee)
                        ==> importee < module_count),
            decreases self.import_records.len() - k,
        {
            if let Some(importee) = self.import_records[k].resolved_module {
                if importee >= module_count {
                    assert(self.import_records@[k as int].resolved_module == Some(importee));
                    return false;
                }
            }
            k = k + 1;
        }
        let mut i: usize = 0;
        while i < self.named_imports.len()
            invariant
                forall|r: int|
                    #![trigger self.import_records@[r]]
                    0 <= r < self.import_records@.len() ==> (
                    self.import_records@[r].resolved_module matches Some(importee) ==> importee
                        < module_count),
                i <= self.named_imports@.len(),
                forall|j: int|
                    0 <= j < i ==> db.holds((#[trigger] self.named_imports@[j]).imported_as),
            decreases self.named_imports.len() - i,
        {
            if !db.has(self.named_imports[i].imported_as) {
                assert(!db.holds(self.named_imports@[i as int].imported_as));
                return false;
            }
            i = i + 1;
        }
        true
    }

    /// Whether the statement refers to import records of the module and to symbols in `db`.
    fn stmt_is_consistent(&self, stmt: &StmtInfo, db: &SymbolRefDb) -> (consistent: bool)
        ensures
            consistent <==> {
                &&& forall|r: int|
                    0 <= r < stmt.import_records@.len() ==> (#[trigger] stmt.import_records@[r])
                        < self.import_records@.len()
                &&& forall|r: int|
                    0 <= r < stmt.referenced_symbols@.len() ==> reference_held(
                        #[trigger] stmt.referenced_symbols@[r],
                        *db,
                    )
            },
    {
        let mut r: usize = 0;
        while r < stmt.import_records.len()
            invariant
                r <= stmt.import_records@.len(),
                forall|q: int|
                    0 <= q < r ==> (#[trigger] stmt.import_records@[q])
                        < self.import_records@.len(),
            decreases stmt.import_records.len() - r,
        {
            if stmt.import_records[r] >= self.import_records.len() {
                assert(stmt.import_records@[r as int] >= self.import_records@.len());
                return false;
            }
            r = r + 1;
        }
        let mut s: usize = 0;
        while s < stmt.referenced_symbols.len()
            invariant
                forall|q: int|
                    0 <= q < stmt.import_records@.len() ==> (#[trigger] stmt.import_records@[q])
                        < self.import_records@.len(),
                s <= stmt.referenced_symbols@.len(),
                forall|q: int|
                    0 <= q < s ==> reference_held(#[trigger] stmt.referenced_symbols@[q], *db),
            decreases stmt.referenced_symbols.len() - s,
        {
            let held = match stmt.referenced_symbols[s] {
                SymbolOrMemberExprRef::Symbol(symbol_ref) => db.has(symbol_ref),
                SymbolOrMemberExprRef::MemberExpr(member) => db.has(member.object_ref),
            };
            if !held {
                assert(!reference_held(stmt.referenced_symbols@[s as int], *db));
                return false;
            }
            s = s + 1;
        }
        true
    }

    /// Whether the statements refer to import records of the module and to symbols in `db`.
    fn stmts_are_consistent(&self, stmts: &Vec<StmtInfo>, db: &SymbolRefDb) -> (consistent: bool)
        ensures
            consistent == self.stmts_wf(stmts@, *db),
    {
        let mut s: usize = 0;
        while s < stmts.len()
            invariant
                s <= stmts@.len(),
                forall|p: int, r: int|
                    0 <= p < s && 0 <= r < stmts@[p].import_records@.len() ==> (
                    #[trigger] stmts@[p].import_records@[r]) < self.import_records@.len(),
                forall|p: int, r: int|
                    0 <= p < s && 0 <= r < stmts@[p].referenced_symbols@.len() ==> reference_held(
                        #[trigger] stmts@[p].referenced_symbols@[r],
                        *db,
                    ),
            decreases stmts.len() - s,
        {
            if !self.stmt_is_consistent(&stmts[s], db) {
                proof {
                    let stmt = stmts@[s as int];
                    if exists|r: int|
                        0 <= r < stmt.import_records@.len() && (
                        #[trigger] stmt.import_records@[r]) >= self.import_records@.len() {
                        let r = choose|r: int|
                            0 <= r < stmt.import_records@.len() && (
                            #[trigger] stmt.import_records@[r]) >= self.import_records@.len();
                        assert(stmts@[s as int].import_records@[r] >= self.import_records@.len());
                    } else {
                        let r = choose|r: int|
                            0 <= r < stmt.referenced_symbols@.len() && !reference_held(
                                #[trigger] stmt.referenced_symbols@[r],
                                *db,
                            );
                        assert(!reference_held(stmts@[s as int].referenced_symbols@[r], *db));
                    }
                }
                return false;
            }
            s = s + 1;
        }
        proof {
            assert forall|p: int, r: int|
                0 <= p < stmts@.len() && 0 <= r < stmts@[p].referenced_symbols@.len() implies match (
            #[trigger] stmts@[p].referenced_symbols@[r]) {
                SymbolOrMemberExprRef::Symbol(symbol_ref) => db.holds(symbol_ref),
                SymbolOrMemberExprRef::MemberExpr(member) => db.holds(member.object_ref),
            } by {
                assert(reference_held(stmts@[p].referenced_symbols@[r], *db));
            }
        }
        true
    }
}

/// The symbol of the reference is in `db`.
spec fn reference_held(reference: SymbolOrMemberExprRef, db: SymbolRefDb) -> bool {
    match reference {
        SymbolOrMemberExprRef::Symbol(symbol_ref) => db.holds(symbol_ref),
        SymbolOrMemberExprRef::MemberExpr(member) => db.holds(member.object_ref),
    }
}

impl LinkStageOutput {
    /// Whether all that the tables hold about one module is consistent.
    fn module_is_consistent(&self, m: ModuleIdx) -> (consistent: bool)
        requires
            m < self.module_count(),
            self.metas@.len() == self.module_count(),
            self.stmt_infos@.len() == self.module_count(),
        ensures
            consistent == self.tables().module_wf(m),
    {
        let meta = &self.metas[m];
        let stmts: &Vec<StmtInfo> = &self.stmt_infos[m].infos;
        if meta.stmt_info_included.len() != stmts.len() || !meta.exports_are_consistent(
            &self.symbol_db,
        ) || !meta.resolutions_are_consistent(&self.symbol_db) {
            return false;
        }
        match self.module_table.modules[m].as_normal() {
            Some(module) => {
                module.idx == m && module.is_consistent(
                    self.module_table.modules.len(),
                    &self.symbol_db,
                ) && module.stmts_are_consistent(stmts, &self.symbol_db)
            },
            None => true,
        }
    }

    /// Whether every index leads somewhere.
    pub fn is_consistent(&self) -> (consistent: bool)
        ensures
            consistent == self.wf(),
    {
        let module_count: usize = self.module_table.modules.len();
        if self.metas.len() != module_count || self.stmt_infos.len() != module_count
            || !self.symbol_db.is_consistent(module_count) {
            return false;
        }
        let mut m: usize = 0;
        while m < module_count
            invariant
                module_count == self.module_count(),
                self.metas@.len() == self.module_count(),
                self.stmt_infos@.len() == self.module_count(),
                m <= module_count,
                forall|k: ModuleIdx| k < m ==> #[trigger] self.tables().module_wf(k),
            decreases module_count - m,
        {
            if !self.module_is_consistent(m) {
                return false;
            }
            m = m + 1;
        }
        let mut k: usize = 0;
        while k < self.entries.len()
            invariant
                module_count == self.module_count(),
                self.tables().wf(),
                k <= self.entries@.len(),
                forall|j: int| 0 <= j < k ==> (#[trigger] self.entries@[j]) < module_count,
            decreases self.entries.len() - k,
        {
            if self.entries[k] >= module_count {
                assert(self.entries@[k as int] >= module_count);
                return false;
            }
            k = k + 1;
        }
        true
    }
}

impl ChunkGraph {
    /// Whether every index leads somewhere, in a program of `module_count` modules.
    pub fn is_consistent(&self, module_count: usize) -> (consistent: bool)
        ensures
            consistent == self.wf(module_count as nat),
    {
        if self.module_to_chunk.len() != module_count || self.module_in_live_chunk.len()
            != module_count {
            return false;
        }
        let mut m: usize = 0;
        while m < module_count
            invariant
                self.module_to_chunk@.len() == module_count,
                self.module_in_live_chunk@.len() == module_count,
                m <= module_count,
                forall|k: int|
                    #![trigger self.module_to_chunk@[k]]
                    0 <= k < m ==> (self.module_to_chunk@[k] matches Some(chunk) ==> chunk
                        < self.chunk_table@.len()),
            decreases module_count - m,
        {
            if let Some(chunk) = self.module_to_chunk[m] {
                if chunk >= self.chunk_table.len() {
                    assert(self.module_to_chunk@[m as int] == Some(chunk));
                    return false;
                }
            }
            m = m + 1;
        }
        let mut c: usize = 0;
        while c < self.chunk_table.len()
            invariant
                self.module_to_chunk@.len() == module_count,
                self.module_in_live_chunk@.len() == module_count,
                forall|k: int|
                    #![trigger self.module_to_chunk@[k]]
                    0 <= k < module_count ==> (self.module_to_chunk@[k] matches Some(chunk)
                        ==> chunk < self.chunk_table@.len()),
                c <= self.chunk_table@.len(),
                forall|d: int, k: int|
                    0 <= d < c && 0 <= k < self.chunk_table@[d].modules@.len() ==> (
                    #[trigger] self.chunk_table@[d].modules@[k]) < module_count,
            decreases self.chunk_table.len() - c,
        {
            let modules: &Vec<ModuleIdx> = &self.chunk_table[c].modules;
            if !all_below(modules, module_count) {
                proof {
                    let k = choose|k: int|
                        0 <= k < modules@.len() && (#[trigger] modules@[k]) >= module_count;
                    assert(self.chunk_table@[c as int].modules@[k] >= module_count);
                }
                return false;
            }
            c = c + 1;
        }
        let entry_chunks = fx::map_values(&self.entry_module_to_entry_chunk);
        if !all_below(&entry_chunks, self.chunk_table.len()) {
            proof {
                let k = choose|k: int|
                    0 <= k < entry_chunks@.len() && (#[trigger] entry_chunks@[k])
                        >= self.chunk_table@.len();
                assert(entry_chunks@.to_set().contains(entry_chunks@[k]));
                let entries = self.entry_module_to_entry_chunk@;
                let m = choose|m: ModuleIdx| #[trigger]
                    entries.contains_key(m) && entries[m] == entry_chunks@[k];
                assert(entries.contains_key(m));
            }
            return false;
        }
        proof {
            let entries = self.entry_module_to_entry_chunk@;
            assert forall|m: ModuleIdx| #[trigger] entries.contains_key(m) implies entries[m]
                < self.chunk_table@.len() by {
                assert(entries.values().contains(entries[m]));
                assert(entry_chunks@.to_set().contains(entries[m]));
                assert(entry_chunks@.contains(entries[m]));
                let k = entry_chunks@.index_of(entries[m]);
                assert(entry_chunks@[k] < self.chunk_table@.len());
            }
        }
        true
    }
}

/// Whether all of `items` are below `bound`.
fn all_below(items: &Vec<usize>, bound: usize) -> (below: bool)
    ensures
        below == forall|k: int| 0 <= k < items@.len() ==> (#[trigger] items@[k]) < bound,
{
    let mut k: usize = 0;
    while k < items.len()
        invariant
            k <= items@.len(),
            forall|j: int| 0 <= j < k ==> (#[trigger] items@[j]) < bound,
        decreases items.len() - k,
    {
        if items[k] >= bound {
            assert(items@[k as int] >= bound);
            return false;
        }
        k = k + 1;
    }
    true
}

/// Whether every import leads to a chunk.
pub fn imports_are_consistent(import_edges: &Vec<FxHashSet<ChunkIdx>>) -> (consistent: bool)
    ensures
        consistent == chunk_cycles::imports_wf(import_edges@),
{
    let mut c: usize = 0;
    while c < import_edges.len()
        invariant
            c <= import_edges@.len(),
            forall|a: ChunkIdx, b: ChunkIdx|
                a < c && #[trigger] chunk_cycles::imports(import_edges@)(a, b) ==> b
                    < import_edges@.len(),
        decreases import_edges.len() - c,
    {
        let importees = fx::set_items(&import_edges[c]);
        if !all_below(&importees, import_edges.len()) {
            proof {
                let k = choose|k: int|
                    0 <= k < importees@.len() && (#[trigger] importees@[k]) >= import_edges@.len();
                assert(importees@.to_set().contains(importees@[k]));
                assert(chunk_cycles::imports(import_edges@)(c, importees@[k]));
            }
            return false;
        }
        proof {
            assert forall|a: ChunkIdx, b: ChunkIdx|
                a < c + 1 && #[trigger] chunk_cycles::imports(import_edges@)(a, b) implies b
                < import_edges@.len() by {
                if a == c {
                    assert(importees@.to_set().contains(b));
                    assert(importees@.contains(b));
                    let k = importees@.index_of(b);
                    assert(importees@[k] < import_edges@.len());
                }
            }
        }
        c = c + 1;
    }
    true
}

} // verus!
