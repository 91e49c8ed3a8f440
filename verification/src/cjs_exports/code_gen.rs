//! The code-gen that removes a static CommonJS module's unused named exports.

use crate::analyzer::texts;
use crate::cjs_exports::recognize::{
    droppable_views, AnalysisView, CommonJsExportsAnalysis, DroppableView,
};
use crate::names::contains_text;
use crate::outside::{add_position, contains_position, new_positions, no_positions};
use crate::syntax::{ModuleItem, Program, Stmt, StmtKind};
use rustc_hash::FxHashSet;
use vstd::prelude::*;

verus! {

/// The position of syntax that stands nowhere in the source.
pub const DUMMY_LO: u32 = 0;

/// Which exports of a module the module graph found used.
#[derive(Debug)]
pub enum ModuleExportUsageInfo {
    /// None: the module is only evaluated.
    Evaluation,
    /// The named ones.
    Exports(Vec<String>),
    /// The module is, or may be, consumed wholesale.
    All,
}

impl ModuleExportUsageInfo {
    /// Whether the export `name` is used.
    pub open spec fn uses_export(self, name: Seq<char>) -> bool {
        match self {
            ModuleExportUsageInfo::Evaluation => false,
            ModuleExportUsageInfo::Exports(names) => texts(names@).contains(name),
            ModuleExportUsageInfo::All => true,
        }
    }

    /// Whether the export `name` is used.
    pub fn is_export_used(&self, name: &String) -> (answer: bool)
        ensures
            answer == self.uses_export(name@),
    {
        match self {
            ModuleExportUsageInfo::Evaluation => false,
            ModuleExportUsageInfo::Exports(names) => contains_text(names, name),
            ModuleExportUsageInfo::All => true,
        }
    }
}

/// An export-write statement that goes if its export is unused.
#[derive(Debug, PartialEq, Eq, Hash)]
pub struct CjsExportDrop {
    pub name: String,
    /// Source position of the `exports.NAME = …` statement, used to locate it in the module body
    /// at code-gen time.
    pub span_lo: u32,
}

/// Removes the `exports.NAME = …` statement for every named CommonJS export the module graph
/// proved unused. Registered only for statically-analyzable CommonJS modules (see
/// [`analyze_cjs_exports`](super::recognize::analyze_cjs_exports)).
#[derive(Debug, PartialEq, Eq, Hash)]
pub struct CjsExportsDropCodeGen {
    pub drops: Vec<CjsExportDrop>,
    /// Whether the module sets the `__esModule` interop marker. A default import of a module
    /// *without* it receives the whole `module.exports` object via interop, so nothing may be
    /// dropped in that case.
    pub has_es_module: bool,
}

impl View for CjsExportDrop {
    type V = DroppableView;

    open spec fn view(&self) -> DroppableView {
        DroppableView { name: self.name@, span_lo: self.span_lo }
    }
}

/// What contracts see of each of `drops`.
pub open spec fn drop_views(drops: Seq<CjsExportDrop>) -> Seq<DroppableView> {
    drops.map_values(|drop: CjsExportDrop| drop@)
}

/// Whether the code-gen of a module may drop anything at all. Without the `__esModule` marker, a
/// default import binds the whole `module.exports`.
pub open spec fn may_drop(has_es_module: bool, usage: ModuleExportUsageInfo) -> bool {
    &&& !(usage is All)
    &&& has_es_module || !usage.uses_export("default"@)
}

/// The positions of the statements among `drops` that go when the exports are used as `usage`
/// says.
pub open spec fn unused_positions(
    drops: Seq<DroppableView>,
    has_es_module: bool,
    usage: ModuleExportUsageInfo,
) -> Set<u32> {
    Set::new(
        |span_lo: u32|
            may_drop(has_es_module, usage) && exists|k: int|
                0 <= k < drops.len() && (#[trigger] drops[k]).span_lo == span_lo
                    && !usage.uses_export(drops[k].name),
    )
}

/// The code-gen for a module with the analysis `analysis`: what it drops, and whether the marker
/// is set.
pub open spec fn drops_of(analysis: AnalysisView) -> Option<(Seq<DroppableView>, bool)> {
    if analysis.is_unsafe || analysis.droppable.len() == 0 {
        None
    } else {
        Some((analysis.droppable, analysis.has_es_module))
    }
}

impl CjsExportsDropCodeGen {
    /// Builds a drop code-gen from a completed [`CommonJsExportsAnalysis`]. Returns `None` when
    /// nothing is droppable.
    pub fn new(analysis: &CommonJsExportsAnalysis) -> (code_gen: Option<Self>)
        ensures
            match code_gen {
                Some(code_gen) => drops_of(analysis@) == Some(
                    (drop_views(code_gen.drops@), code_gen.has_es_module),
                ),
                None => drops_of(analysis@) is None,
            },
    {
        if analysis.is_unsafe || analysis.droppable.len() == 0 {
            return None;
        }
        let mut drops: Vec<CjsExportDrop> = Vec::new();
        let mut i: usize = 0;
        while i < analysis.droppable.len()
            invariant
                i <= analysis.droppable@.len(),
                drops@.len() == i,
                forall|k: int| 0 <= k < i ==> (#[trigger] drops@[k])@ == analysis.droppable@[k]@,
            decreases analysis.droppable@.len() - i,
        {
            drops.push(
                CjsExportDrop {
                    name: analysis.droppable[i].name.clone(),
                    span_lo: analysis.droppable[i].span_lo,
                },
            );
            i += 1;
        }
        assert(drop_views(drops@) =~= droppable_views(analysis.droppable@));
        Some(CjsExportsDropCodeGen { drops, has_es_module: analysis.has_es_module })
    }

    /// What is to be removed from the module when its exports are used as `usage` says; `None`
    /// when the module stays as it is.
    pub fn code_generation(&self, usage: &ModuleExportUsageInfo) -> (code: Option<DropExportWrites>)
        ensures
            match code {
                Some(code) => {
                    &&& code@ == unused_positions(drop_views(self.drops@), self.has_es_module, *usage)
                    &&& code@ != Set::<u32>::empty()
                },
                None => unused_positions(drop_views(self.drops@), self.has_es_module, *usage)
                    == Set::<u32>::empty(),
            },
    {
        let ghost drops = drop_views(self.drops@);
        let ghost positions = unused_positions(drops, self.has_es_module, *usage);
        // `All` means the module is (or may be) consumed wholesale, e.g. via `require()` or a
        // namespace import, so nothing can be dropped.
        if let ModuleExportUsageInfo::All = usage {
            assert(positions =~= Set::<u32>::empty());
            return None;
        }
        // Without `__esModule`, `import x from './cjs'` binds `x` to the entire `module.exports`
        // object (CJS interop provides no separate `default`), so any named export can be read as
        // `x.NAME`. Seeing `default` used therefore means every named export is reachable: drop
        // nothing.
        if !self.has_es_module && usage.is_export_used(&"default".to_owned()) {
            assert(positions =~= Set::<u32>::empty());
            return None;
        }
        let mut unused = new_positions();
        let mut i: usize = 0;
        while i < self.drops.len()
            invariant
                i <= self.drops@.len(),
                drops == drop_views(self.drops@),
                forall|span_lo: u32| #[trigger]
                    unused@.contains(span_lo) == exists|k: int|
                        0 <= k < i && (#[trigger] drops[k]).span_lo == span_lo
                            && !usage.uses_export(drops[k].name),
            decreases self.drops@.len() - i,
        {
            let ghost before = unused@;
            assert(drops[i as int] == self.drops@[i as int]@);
            if !usage.is_export_used(&self.drops[i].name) {
                add_position(&mut unused, self.drops[i].span_lo);
            }
            assert forall|span_lo: u32| #[trigger] unused@.contains(span_lo) == exists|k: int|
                0 <= k < i + 1 && (#[trigger] drops[k]).span_lo == span_lo && !usage.uses_export(
                    drops[k].name,
                ) by {
                if before.contains(span_lo) {
                    let k = choose|k: int|
                        0 <= k < i && (#[trigger] drops[k]).span_lo == span_lo
                            && !usage.uses_export(drops[k].name);
                    assert(0 <= k < i + 1 && drops[k].span_lo == span_lo);
                }
            }
            i += 1;
        }
        assert(unused@ =~= positions);
        if no_positions(&unused) {
            return None;
        }
        // Blank each unused export write, matched by source position among the module's top-level
        // statements.
        Some(DropExportWrites { unused })
    }
}

/// `stmt`, or the empty statement in its place if its position is in `unused`.
pub open spec fn blanked(stmt: Stmt, unused: Set<u32>) -> Stmt {
    if unused.contains(stmt.span_lo) {
        Stmt { span_lo: DUMMY_LO, kind: StmtKind::Empty }
    } else {
        stmt
    }
}

/// `item`, blanked if it is a statement.
pub open spec fn blanked_item(item: ModuleItem, unused: Set<u32>) -> ModuleItem {
    match item {
        ModuleItem::Stmt(stmt) => ModuleItem::Stmt(blanked(stmt, unused)),
        ModuleItem::ModuleDecl(_) => item,
    }
}

/// Whether `after` is `before` with its top-level statements blanked.
pub open spec fn is_blanked(before: Program, after: Program, unused: Set<u32>) -> bool {
    match (before, after) {
        (Program::Module(before), Program::Module(after)) => {
            after@ == before@.map_values(|item: ModuleItem| blanked_item(item, unused))
        },
        (Program::Script(before), Program::Script(after)) => {
            after@ == before@.map_values(|stmt: Stmt| blanked(stmt, unused))
        },
        _ => false,
    }
}

/// Blanks the top-level `exports.NAME = …` statements whose source position is in `unused`,
/// replacing each with an empty statement.
#[derive(Debug)]
pub struct DropExportWrites {
    unused: FxHashSet<u32>,
}

impl View for DropExportWrites {
    type V = Set<u32>;

    closed spec fn view(&self) -> Set<u32> {
        self.unused@
    }
}

impl DropExportWrites {
    /// Whether the statement at `span_lo` goes.
    pub fn drops(&self, span_lo: u32) -> (answer: bool)
        ensures
            answer == self@.contains(span_lo),
    {
        contains_position(&self.unused, span_lo)
    }

    /// Blanks `stmt` if it is to go.
    pub fn drop_matching(&self, stmt: &mut Stmt)
        ensures
            *final(stmt) == blanked(*old(stmt), self@),
    {
        if self.drops(stmt.span_lo) {
            *stmt = Stmt { span_lo: DUMMY_LO, kind: StmtKind::Empty };
        }
    }

    /// Blanks the statements of `program` that are to go.
    pub fn visit_mut_program(&self, program: &mut Program)
        ensures
            is_blanked(*old(program), *final(program), self@),
    {
        match program {
            Program::Module(body) => {
                let ghost before = body@;
                let mut i: usize = 0;
                while i < body.len()
                    invariant
                        i <= body@.len(),
                        body@.len() == before.len(),
                        forall|k: int|
                            0 <= k < i ==> #[trigger] body@[k] == blanked_item(before[k], self@),
                        forall|k: int| i <= k < body@.len() ==> #[trigger] body@[k] == before[k],
                    decreases body@.len() - i,
                {
                    match &mut body[i] {
                        ModuleItem::Stmt(stmt) => self.drop_matching(stmt),
                        ModuleItem::ModuleDecl(_) => {},
                    }
                    i += 1;
                }
                assert(body@ =~= before.map_values(
                    |item: ModuleItem| blanked_item(item, self@),
                ));
            },
            Program::Script(body) => {
                let ghost before = body@;
                let mut i: usize = 0;
                while i < body.len()
                    invariant
                        i <= body@.len(),
                        body@.len() == before.len(),
                        forall|k: int|
                            0 <= k < i ==> #[trigger] body@[k] == blanked(before[k], self@),
                        forall|k: int| i <= k < body@.len() ==> #[trigger] body@[k] == before[k],
                    decreases body@.len() - i,
                {
                    self.drop_matching(&mut body[i]);
                    i += 1;
                }
                assert(body@ =~= before.map_values(|stmt: Stmt| blanked(stmt, self@)));
            },
        }
    }
}

/// A step of code generation.
#[derive(Debug)]
pub enum CodeGen {
    CjsExportsDropCodeGen(CjsExportsDropCodeGen),
}

impl From<CjsExportsDropCodeGen> for CodeGen {
    fn from(val: CjsExportsDropCodeGen) -> (code_gen: Self) {
        CodeGen::CjsExportsDropCodeGen(val)
    }
}

impl vstd::std_specs::convert::FromSpecImpl<CjsExportsDropCodeGen> for CodeGen {
    open spec fn obeys_from_spec() -> bool {
        true
    }

    open spec fn from_spec(val: CjsExportsDropCodeGen) -> Self {
        CodeGen::CjsExportsDropCodeGen(val)
    }
}

} // verus!
