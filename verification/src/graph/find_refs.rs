//! `find-refs`: the definitions that carry a name.
use vstd::prelude::*;

use crate::index::{DefKind, Definition, Import, Index, RefKind, Reference};
use crate::resolve::{confidence_text, reason_text, refs_named, resolution, resolve_refs};
use crate::text::{concat, lowercase, str_eq, to_lowercase};

verus! {

/// One place a name is defined.
#[derive(Debug)]
pub struct Hit {
    pub file: String,
    pub line: usize,
    pub column: usize,
    /// Always `definition`.
    pub kind: &'static str,
    pub name: String,
    /// The kind and name, lowercased (`fn authenticate`).
    pub context: String,
    pub confidence: &'static str,
    pub reason: &'static str,
}

pub struct HitView {
    pub file: Seq<char>,
    pub line: usize,
    pub column: usize,
    pub kind: Seq<char>,
    pub name: Seq<char>,
    pub context: Seq<char>,
    pub confidence: Seq<char>,
    pub reason: Seq<char>,
}

impl View for Hit {
    type V = HitView;

    open spec fn view(&self) -> HitView {
        HitView {
            file: self.file@,
            line: self.line,
            column: self.column,
            kind: self.kind@,
            name: self.name@,
            context: self.context@,
            confidence: self.confidence@,
            reason: self.reason@,
        }
    }
}

/// The name `Debug` gives each kind.
pub open spec fn def_kind_debug(k: DefKind) -> Seq<char> {
    match k {
        DefKind::Fn => "Fn"@,
        DefKind::Struct => "Struct"@,
        DefKind::Enum => "Enum"@,
        DefKind::Trait => "Trait"@,
        DefKind::Class => "Class"@,
        DefKind::Interface => "Interface"@,
        DefKind::Type => "Type"@,
        DefKind::Const => "Const"@,
        DefKind::Method => "Method"@,
    }
}

fn kind_debug(k: DefKind) -> (res: &'static str)
    ensures
        res@ == def_kind_debug(k),
{
    match k {
        DefKind::Fn => "Fn",
        DefKind::Struct => "Struct",
        DefKind::Enum => "Enum",
        DefKind::Trait => "Trait",
        DefKind::Class => "Class",
        DefKind::Interface => "Interface",
        DefKind::Type => "Type",
        DefKind::Const => "Const",
        DefKind::Method => "Method",
    }
}

/// The hit for definition `d`.
pub open spec fn hit_of(d: Definition) -> HitView {
    HitView {
        file: d.file@,
        line: d.line,
        column: d.column,
        kind: "definition"@,
        name: d.name@,
        context: lowercase(def_kind_debug(d.kind) + " "@ + d.name@),
        confidence: "high"@,
        reason: "same-file-scope"@,
    }
}

/// The lowercase name of a reference kind.
pub open spec fn ref_kind_text(k: RefKind) -> Seq<char> {
    match k {
        RefKind::Call => "call"@,
        RefKind::Reference => "reference"@,
    }
}

fn ref_kind_label(k: RefKind) -> (res: &'static str)
    ensures
        res@ == ref_kind_text(k),
{
    match k {
        RefKind::Call => "call",
        RefKind::Reference => "reference",
    }
}

/// The hit for reference `r`, resolved from its file.
pub open spec fn ref_hit(defs: Seq<Definition>, imps: Seq<Import>, r: Reference) -> HitView {
    let res = resolution(defs, imps, r.name@, r.file@);
    HitView {
        file: r.file@,
        line: r.line,
        column: r.column,
        kind: ref_kind_text(r.kind),
        name: r.name@,
        context: r.context@,
        confidence: confidence_text(res.1),
        reason: reason_text(res.2),
    }
}

/// Definition named `t`.
pub open spec fn is_named(t: Seq<char>) -> spec_fn(Definition) -> bool {
    |d: Definition| d.name@ == t
}

/// Every definition named `name`, then every reference to it with how it
/// resolves, each in index order.
pub fn find_refs(idx: &Index, name: &str) -> (res: Vec<Hit>)
    ensures
        res@.map_values(|h: Hit| h@) == idx.definitions@.filter(is_named(name@)).map_values(
            |d: Definition| hit_of(d),
        ) + refs_named(idx.references@, name@).map_values(
            |r: Reference| ref_hit(idx.definitions@, idx.imports@, r),
        ),
{
    let ghost defs = idx.definitions@;
    let ghost p = is_named(name@);
    let mut hits: Vec<Hit> = Vec::new();
    let mut i: usize = 0;
    proof {
        reveal(Seq::filter);
    }
    assert(defs.take(0).filter(p) =~= Seq::<Definition>::empty());
    while i < idx.definitions.len()
        invariant
            defs == idx.definitions@,
            p == is_named(name@),
            i <= defs.len(),
            hits@.map_values(|h: Hit| h@) == defs.take(i as int).filter(p).map_values(
                |d: Definition| hit_of(d),
            ),
        decreases defs.len() - i,
    {
        let d = &idx.definitions[i];
        let ghost before = hits@;
        proof {
            reveal(Seq::filter);
        }
        assert(defs.take(i + 1).drop_last() =~= defs.take(i as int));
        assert(defs.take(i + 1).last() == *d);
        if str_eq(d.name.as_str(), name) {
            let text = concat(concat(kind_debug(d.kind), " ").as_str(), d.name.as_str());
            let hit = Hit {
                file: d.file.clone(),
                line: d.line,
                column: d.column,
                kind: "definition",
                name: d.name.clone(),
                context: to_lowercase(text.as_str()),
                confidence: "high",
                reason: "same-file-scope",
            };
            hits.push(hit);
            assert(hits@.map_values(|h: Hit| h@) =~= before.map_values(|h: Hit| h@).push(hit_of(*d)));
            assert(defs.take(i + 1).filter(p) =~= defs.take(i as int).filter(p).push(*d));
        }
        i = i + 1;
    }
    assert(defs.take(i as int) =~= defs);
    let ghost dhits = hits@.map_values(|h: Hit| h@);
    let resolved = resolve_refs(idx, name);
    let ghost named = refs_named(idx.references@, name@);
    let ghost g = |r: Reference| ref_hit(idx.definitions@, idx.imports@, r);
    let mut j: usize = 0;
    assert(dhits + named.take(0).map_values(g) =~= dhits);
    while j < resolved.len()
        invariant
            j <= resolved@.len(),
            resolved@.len() == named.len(),
            named == refs_named(idx.references@, name@),
            g == (|r: Reference| ref_hit(idx.definitions@, idx.imports@, r)),
            forall|k: int|
                #![trigger resolved@[k]]
                0 <= k < resolved@.len() ==> {
                    let r = named[k];
                    &&& *resolved@[k].reference == r
                    &&& (resolved@[k].confidence, resolved@[k].reason) == (
                        resolution(idx.definitions@, idx.imports@, name@, r.file@).1,
                        resolution(idx.definitions@, idx.imports@, name@, r.file@).2,
                    )
                },
            hits@.map_values(|h: Hit| h@) == dhits + named.take(j as int).map_values(g),
        decreases resolved@.len() - j,
    {
        let rs = &resolved[j];
        let r = rs.reference;
        let hit = Hit {
            file: r.file.clone(),
            line: r.line,
            column: r.column,
            kind: ref_kind_label(r.kind),
            name: r.name.clone(),
            context: r.context.clone(),
            confidence: rs.confidence.as_str(),
            reason: rs.reason.as_str(),
        };
        let ghost before = hits@;
        hits.push(hit);
        proof {
            assert(hit@ == g(named[j as int]));
            assert(named.take(j + 1).map_values(g) =~= named.take(j as int).map_values(g).push(
                g(named[j as int]),
            ));
            assert(hits@.map_values(|h: Hit| h@) =~= before.map_values(|h: Hit| h@).push(hit@));
        }
        j = j + 1;
    }
    assert(named.take(j as int) =~= named);
    hits
}

} // verus!
