//! The report card: declaration counts over a whole scan.
//!
//! Every declaration line of every unit bumps one counter, split by
//! whether the line looks public (its text contains `pub`). Use and
//! import declarations, doc comments and plain lines count nothing.
//! A public trait line counts toward the public types, as the report
//! has always tallied it.
use vstd::prelude::*;
use crate::chars::{chars_of, contains_chars, contains_sub};
use crate::classify::{DeclKind, Flavour, RawLine};
use crate::source::{RawSourceCode, SourceTree};

verus! {

/// A line looks public when its text contains `pub` anywhere.
pub open spec fn is_pub_line(l: RawLine) -> bool {
    contains_sub(l.contents@, "pub"@)
}

/// The report's counters, as one mathematical value.
pub ghost struct Tally {
    pub funcs: nat,
    pub pub_funcs: nat,
    pub structs: nat,
    pub pub_structs: nat,
    pub enums: nat,
    pub pub_enums: nat,
    pub types: nat,
    pub pub_types: nat,
    pub traits: nat,
    pub pub_traits: nat,
    pub macros: nat,
}

/// The tally with nothing counted yet.
pub open spec fn tally_zero() -> Tally {
    Tally {
        funcs: 0,
        pub_funcs: 0,
        structs: 0,
        pub_structs: 0,
        enums: 0,
        pub_enums: 0,
        types: 0,
        pub_types: 0,
        traits: 0,
        pub_traits: 0,
        macros: 0,
    }
}

/// What one line adds to a tally.
pub open spec fn tally_plus(t: Tally, l: RawLine) -> Tally {
    match l.flavour {
        Flavour::Declaration(DeclKind::Function) => if is_pub_line(l) {
            Tally { pub_funcs: t.pub_funcs + 1, ..t }
        } else {
            Tally { funcs: t.funcs + 1, ..t }
        },
        Flavour::Declaration(DeclKind::Type) => if is_pub_line(l) {
            Tally { pub_types: t.pub_types + 1, ..t }
        } else {
            Tally { types: t.types + 1, ..t }
        },
        Flavour::Declaration(DeclKind::Enum) => if is_pub_line(l) {
            Tally { pub_enums: t.pub_enums + 1, ..t }
        } else {
            Tally { enums: t.enums + 1, ..t }
        },
        Flavour::Declaration(DeclKind::Trait) => if is_pub_line(l) {
            Tally { pub_types: t.pub_types + 1, ..t }
        } else {
            Tally { traits: t.traits + 1, ..t }
        },
        Flavour::Declaration(DeclKind::Struct) => if is_pub_line(l) {
            Tally { pub_structs: t.pub_structs + 1, ..t }
        } else {
            Tally { structs: t.structs + 1, ..t }
        },
        _ => t,
    }
}

/// Fieldwise sum of two tallies.
pub open spec fn tally_sum(a: Tally, b: Tally) -> Tally {
    Tally {
        funcs: a.funcs + b.funcs,
        pub_funcs: a.pub_funcs + b.pub_funcs,
        structs: a.structs + b.structs,
        pub_structs: a.pub_structs + b.pub_structs,
        enums: a.enums + b.enums,
        pub_enums: a.pub_enums + b.pub_enums,
        types: a.types + b.types,
        pub_types: a.pub_types + b.pub_types,
        traits: a.traits + b.traits,
        pub_traits: a.pub_traits + b.pub_traits,
        macros: a.macros + b.macros,
    }
}

/// Everything a tally has counted.
pub open spec fn tally_total(t: Tally) -> nat {
    t.funcs + t.pub_funcs + t.structs + t.pub_structs + t.enums + t.pub_enums + t.types
        + t.pub_types + t.traits + t.pub_traits + t.macros
}

/// The tally of a unit's lines, in order.
pub open spec fn tally_of(lines: Seq<RawLine>) -> Tally
    decreases lines.len(),
{
    if lines.len() == 0 {
        tally_zero()
    } else {
        tally_plus(tally_of(lines.drop_last()), lines.last())
    }
}

/// The tally of a whole scan, unit by unit.
pub open spec fn tree_tally(units: Seq<RawSourceCode>) -> Tally
    decreases units.len(),
{
    if units.len() == 0 {
        tally_zero()
    } else {
        tally_sum(tree_tally(units.drop_last()), tally_of(units.last().lines@))
    }
}

/// The line count of a whole scan.
pub open spec fn tree_lines(units: Seq<RawSourceCode>) -> nat
    decreases units.len(),
{
    if units.len() == 0 {
        0
    } else {
        units[0].lines@.len() + tree_lines(units.drop_first())
    }
}

/// A tally counts at most one thing per line.
pub proof fn lemma_tally_of_total(lines: Seq<RawLine>)
    ensures
        tally_total(tally_of(lines)) <= lines.len(),
    decreases lines.len(),
{
    if lines.len() > 0 {
        lemma_tally_of_total(lines.drop_last());
    }
}

/// Counts of what was declared across a scan, split public/private.
#[derive(Debug)]
pub struct ReportCard {
    pub source_files: Vec<RawSourceCode>,
    pub named_idents: Vec<String>,
    pub num_funcs: usize,
    pub num_pub_funcs: usize,
    pub num_structs: usize,
    pub num_pub_structs: usize,
    pub num_enums: usize,
    pub num_pub_enums: usize,
    pub num_types: usize,
    pub num_pub_types: usize,
    pub num_traits: usize,
    pub num_pub_traits: usize,
    pub num_macros: usize,
}

/// The counters of a report card, as a tally.
pub open spec fn rc_tally(rc: ReportCard) -> Tally {
    Tally {
        funcs: rc.num_funcs as nat,
        pub_funcs: rc.num_pub_funcs as nat,
        structs: rc.num_structs as nat,
        pub_structs: rc.num_pub_structs as nat,
        enums: rc.num_enums as nat,
        pub_enums: rc.num_pub_enums as nat,
        types: rc.num_types as nat,
        pub_types: rc.num_pub_types as nat,
        traits: rc.num_traits as nat,
        pub_traits: rc.num_pub_traits as nat,
        macros: rc.num_macros as nat,
    }
}

impl RawLine {
    /// Whether the line's text contains `pub` anywhere; how the report
    /// tells public declarations from private ones.
    pub fn pub_or_private(&self) -> (r: bool)
        ensures
            r == is_pub_line(*self),
    {
        let text = chars_of(self.contents.as_str());
        let needle = chars_of("pub");
        contains_chars(text.as_slice(), needle.as_slice())
    }

    /// Bumps the report counter this line belongs to, if any.
    pub fn report(&self, rc: &mut ReportCard)
        requires
            tally_total(rc_tally(*old(rc))) + 1 <= usize::MAX,
        ensures
            rc_tally(*final(rc)) == tally_plus(rc_tally(*old(rc)), *self),
            final(rc).source_files == old(rc).source_files,
            final(rc).named_idents == old(rc).named_idents,
    {
        match self.flavour {
            Flavour::Declaration(DeclKind::Function) => {
                if self.pub_or_private() {
                    rc.num_pub_funcs = rc.num_pub_funcs + 1;
                } else {
                    rc.num_funcs = rc.num_funcs + 1;
                }
            },
            Flavour::Declaration(DeclKind::Type) => {
                if self.pub_or_private() {
                    rc.num_pub_types = rc.num_pub_types + 1;
                } else {
                    rc.num_types = rc.num_types + 1;
                }
            },
            Flavour::Declaration(DeclKind::Enum) => {
                if self.pub_or_private() {
                    rc.num_pub_enums = rc.num_pub_enums + 1;
                } else {
                    rc.num_enums = rc.num_enums + 1;
                }
            },
            Flavour::Declaration(DeclKind::Trait) => {
                if self.pub_or_private() {
                    rc.num_pub_types = rc.num_pub_types + 1;
                } else {
                    rc.num_traits = rc.num_traits + 1;
                }
            },
            Flavour::Declaration(DeclKind::Struct) => {
                if self.pub_or_private() {
                    rc.num_pub_structs = rc.num_pub_structs + 1;
                } else {
                    rc.num_structs = rc.num_structs + 1;
                }
            },
            _ => {},
        }
    }
}

impl ReportCard {
    /// Folds one unit's lines into the counters.
    pub fn process(&mut self, rsc: &RawSourceCode)
        requires
            tally_total(rc_tally(*old(self))) + rsc.lines@.len() <= usize::MAX,
        ensures
            rc_tally(*final(self)) == tally_sum(rc_tally(*old(self)), tally_of(rsc.lines@)),
            final(self).source_files == old(self).source_files,
            final(self).named_idents == old(self).named_idents,
    {
        let mut i: usize = 0;
        proof {
            assert(rsc.lines@.take(0) =~= Seq::<RawLine>::empty());
        }
        while i < rsc.lines.len()
            invariant
                i <= rsc.lines@.len(),
                tally_total(rc_tally(*old(self))) + rsc.lines@.len() <= usize::MAX,
                rc_tally(*self) == tally_sum(rc_tally(*old(self)), tally_of(rsc.lines@.take(i as int))),
                self.source_files == old(self).source_files,
                self.named_idents == old(self).named_idents,
            decreases rsc.lines@.len() - i,
        {
            proof {
                lemma_tally_of_total(rsc.lines@.take(i as int));
                assert(rsc.lines@.take(i + 1).drop_last() =~= rsc.lines@.take(i as int));
                assert(rsc.lines@.take(i + 1).last() == rsc.lines@[i as int]);
            }
            let l = &rsc.lines[i];
            l.report(self);
            i += 1;
        }
        proof {
            assert(rsc.lines@.take(rsc.lines@.len() as int) =~= rsc.lines@);
        }
    }

    /// Builds the whole report from a finished scan: every unit's lines
    /// are folded into the counters, and the units move into the card.
    pub fn from_source_tree(st: SourceTree) -> (rc: ReportCard)
        requires
            tree_lines(st.source_files@) <= usize::MAX,
        ensures
            rc_tally(rc) == tree_tally(st.source_files@),
            rc.source_files == st.source_files,
            rc.named_idents@.len() == 0,
    {
        let mut rc = ReportCard {
            source_files: Vec::new(),
            named_idents: Vec::new(),
            num_funcs: 0,
            num_pub_funcs: 0,
            num_structs: 0,
            num_pub_structs: 0,
            num_enums: 0,
            num_pub_enums: 0,
            num_types: 0,
            num_pub_types: 0,
            num_traits: 0,
            num_pub_traits: 0,
            num_macros: 0,
        };
        let mut u: usize = 0;
        proof {
            assert(st.source_files@.take(0) =~= Seq::<RawSourceCode>::empty());
            assert(st.source_files@.skip(0) =~= st.source_files@);
        }
        while u < st.source_files.len()
            invariant
                u <= st.source_files@.len(),
                rc_tally(rc) == tree_tally(st.source_files@.take(u as int)),
                tally_total(rc_tally(rc)) + tree_lines(st.source_files@.skip(u as int))
                    <= usize::MAX,
                rc.source_files@.len() == 0,
                rc.named_idents@.len() == 0,
            decreases st.source_files@.len() - u,
        {
            proof {
                assert(st.source_files@.skip(u as int)[0] == st.source_files@[u as int]);
                assert(st.source_files@.skip(u as int).drop_first() =~= st.source_files@.skip(
                    u + 1,
                ));
                assert(st.source_files@.take(u + 1).drop_last() =~= st.source_files@.take(
                    u as int,
                ));
                assert(st.source_files@.take(u + 1).last() == st.source_files@[u as int]);
                lemma_tally_of_total(st.source_files@[u as int].lines@);
            }
            rc.process(&st.source_files[u]);
            u += 1;
        }
        proof {
            assert(st.source_files@.take(st.source_files@.len() as int) =~= st.source_files@);
        }
        rc.source_files = st.source_files;
        rc
    }
}

} // verus!
