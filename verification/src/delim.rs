//! The delimiter model: the three recognized line-ending conventions, their
//! canonical byte encodings and display labels, and sets of delimiter kinds.

use vstd::prelude::*;

verus! {

/// The LF byte, `\n`.
pub const LF_BYTE: u8 = 0x0a;

/// The CR byte, `\r`.
pub const CR_BYTE: u8 = 0x0d;

/// One of the three recognized line-ending conventions.
///
/// Declared in the reporting order LF, CR, CRLF.
#[derive(Clone, Copy, Debug, PartialEq, Eq, Structural)]
pub enum Delim {
    LF,
    CR,
    CRLF,
}

/// Canonical byte encoding of a delimiter: `\n`, `\r` or `\r\n`.
pub open spec fn delim_bytes(d: Delim) -> Seq<u8> {
    match d {
        Delim::LF => seq![LF_BYTE],
        Delim::CR => seq![CR_BYTE],
        Delim::CRLF => seq![CR_BYTE, LF_BYTE],
    }
}

/// Display label of a delimiter: `LF`, `CR` or `CRLF`.
pub open spec fn label_chars(d: Delim) -> Seq<char> {
    match d {
        Delim::LF => seq!['L', 'F'],
        Delim::CR => seq!['C', 'R'],
        Delim::CRLF => seq!['C', 'R', 'L', 'F'],
    }
}

impl Delim {
    /// Append the canonical byte encoding of this delimiter to `out`.
    pub fn write_to(self, out: &mut Vec<u8>)
        ensures
            final(out)@ == old(out)@ + delim_bytes(self),
    {
        match self {
            Delim::LF => {
                out.push(LF_BYTE);
            },
            Delim::CR => {
                out.push(CR_BYTE);
            },
            Delim::CRLF => {
                out.push(CR_BYTE);
                out.push(LF_BYTE);
            },
        }
        proof {
            assert(out@ =~= old(out)@ + delim_bytes(self));
        }
    }

    /// The display label of this delimiter.
    pub fn label(self) -> (r: &'static str)
        ensures
            r@ == label_chars(self),
    {
        proof {
            reveal_strlit("LF");
            reveal_strlit("CR");
            reveal_strlit("CRLF");
        }
        match self {
            Delim::LF => {
                let r = "LF";
                proof {
                    assert(r@ =~= label_chars(self));
                }
                r
            },
            Delim::CR => {
                let r = "CR";
                proof {
                    assert(r@ =~= label_chars(self));
                }
                r
            },
            Delim::CRLF => {
                let r = "CRLF";
                proof {
                    assert(r@ =~= label_chars(self));
                }
                r
            },
        }
    }
}

/// The characters of the separator between two reported labels.
pub open spec fn sep_chars() -> Seq<char> {
    seq![',', ' ']
}

/// The label reported for a set with no delimiter kind at all.
pub open spec fn no_delim_chars() -> Seq<char> {
    seq!['N', 'O', '_', 'D', 'E', 'L', 'I', 'M']
}

/// The report line for a set of delimiter kinds: the labels of the kinds
/// present, in the order LF, CR, CRLF, separated by `", "`; `NO_DELIM` when
/// the set is empty.
pub open spec fn render_delim_set(s: Set<Delim>) -> Seq<char> {
    let lf = s.contains(Delim::LF);
    let cr = s.contains(Delim::CR);
    let crlf = s.contains(Delim::CRLF);
    if !lf && !cr && !crlf {
        no_delim_chars()
    } else {
        (if lf {
            label_chars(Delim::LF)
        } else {
            Seq::empty()
        }) + (if cr {
            (if lf {
                sep_chars()
            } else {
                Seq::empty()
            }) + label_chars(Delim::CR)
        } else {
            Seq::empty()
        }) + (if crlf {
            (if lf || cr {
                sep_chars()
            } else {
                Seq::empty()
            }) + label_chars(Delim::CRLF)
        } else {
            Seq::empty()
        })
    }
}

/// A set of delimiter kinds, one flag per kind.
#[derive(Clone, Copy, Debug, PartialEq, Eq, Structural)]
pub struct DelimSet {
    pub lf: bool,
    pub cr: bool,
    pub crlf: bool,
}

impl DelimSet {
    /// Whether delimiter `d` belongs to this set.
    pub open spec fn spec_contains(self, d: Delim) -> bool {
        match d {
            Delim::LF => self.lf,
            Delim::CR => self.cr,
            Delim::CRLF => self.crlf,
        }
    }
}

impl View for DelimSet {
    type V = Set<Delim>;

    open spec fn view(&self) -> Set<Delim> {
        Set::new(|d: Delim| self.spec_contains(d))
    }
}

impl DelimSet {
    /// The empty set of delimiter kinds.
    pub fn empty() -> (r: DelimSet)
        ensures
            r@ == Set::<Delim>::empty(),
    {
        let r = DelimSet { lf: false, cr: false, crlf: false };
        proof {
            assert(r@ =~= Set::<Delim>::empty());
        }
        r
    }

    /// The set holding `d` alone.
    pub fn singleton(d: Delim) -> (r: DelimSet)
        ensures
            r@ == Set::<Delim>::empty().insert(d),
    {
        let mut r = DelimSet::empty();
        r.insert(d);
        r
    }

    /// Add delimiter `d` to this set.
    pub fn insert(&mut self, d: Delim)
        ensures
            final(self)@ == old(self)@.insert(d),
    {
        match d {
            Delim::LF => {
                self.lf = true;
            },
            Delim::CR => {
                self.cr = true;
            },
            Delim::CRLF => {
                self.crlf = true;
            },
        }
        proof {
            assert(self@ =~= old(self)@.insert(d));
        }
    }

    /// Whether delimiter `d` belongs to this set.
    pub fn contains(&self, d: Delim) -> (r: bool)
        ensures
            r == self@.contains(d),
    {
        match d {
            Delim::LF => self.lf,
            Delim::CR => self.cr,
            Delim::CRLF => self.crlf,
        }
    }

    /// Whether this set is empty.
    pub fn is_empty(&self) -> (r: bool)
        ensures
            r == (self@ == Set::<Delim>::empty()),
    {
        let r = !self.lf && !self.cr && !self.crlf;
        proof {
            if r {
                assert(self@ =~= Set::<Delim>::empty());
            } else {
                if self.lf {
                    assert(self@.contains(Delim::LF));
                } else if self.cr {
                    assert(self@.contains(Delim::CR));
                } else {
                    assert(self@.contains(Delim::CRLF));
                }
            }
        }
        r
    }

    /// Whether every delimiter kind of this set belongs to `other`.
    pub fn is_subset(&self, other: &DelimSet) -> (r: bool)
        ensures
            r == self@.subset_of(other@),
    {
        let r = (!self.lf || other.lf) && (!self.cr || other.cr) && (!self.crlf || other.crlf);
        proof {
            if r {
                assert forall|d: Delim| self@.contains(d) implies other@.contains(d) by {
                    assert(self.spec_contains(d) ==> other.spec_contains(d));
                }
            } else {
                if self.lf && !other.lf {
                    assert(self@.contains(Delim::LF) && !other@.contains(Delim::LF));
                } else if self.cr && !other.cr {
                    assert(self@.contains(Delim::CR) && !other@.contains(Delim::CR));
                } else {
                    assert(self@.contains(Delim::CRLF) && !other@.contains(Delim::CRLF));
                }
            }
        }
        r
    }

    /// Whether a file whose delimiter kinds are this set must be rewritten to
    /// become uniform in `target`: it must iff the set is not a subset of
    /// `{target}` (a file with no delimiter at all, or one already uniform in
    /// `target`, is left untouched).
    pub fn needs_rewrite(&self, target: Delim) -> (r: bool)
        ensures
            r == !self@.subset_of(Set::<Delim>::empty().insert(target)),
    {
        let t = DelimSet::singleton(target);
        !self.is_subset(&t)
    }

    /// The report line for this set, as `render_delim_set` gives it.
    pub fn labels_string(&self) -> (r: String)
        ensures
            r@ == render_delim_set(self@),
    {
        proof {
            reveal_strlit("NO_DELIM");
            reveal_strlit("LF");
            reveal_strlit("CR");
            reveal_strlit("CRLF");
            reveal_strlit(", ");
        }
        if !self.lf && !self.cr && !self.crlf {
            let r = "NO_DELIM".to_owned();
            proof {
                assert(r@ =~= render_delim_set(self@));
            }
            r
        } else {
            let mut s = String::new();
            if self.lf {
                s.append("LF");
            }
            if self.cr {
                if self.lf {
                    s.append(", ");
                }
                s.append("CR");
            }
            if self.crlf {
                if self.lf || self.cr {
                    s.append(", ");
                }
                s.append("CRLF");
            }
            proof {
                assert(s@ =~= render_delim_set(self@));
            }
            s
        }
    }
}

} // verus!
