//! Layer discovery and priority order.
//!
//! The immediate children of the layers root are candidate layers. A
//! candidate enters the merge iff it is a directory without the disabled
//! marker; each directory found under a kept candidate's `options`
//! subdirectory enters as a layer of its own. The resulting paths are
//! collected into one flat list, deduplicated, in strictly descending
//! lexical order: the head of the list is the lexically greatest path and
//! has the highest priority, because the merge processes the list front to
//! back and the first layer to offer a path wins it.

use vstd::prelude::*;
use crate::lex::{
    lex_lt, bytes_eq, bytes_lt, bytes_copy, lemma_lex_lt_connected, lemma_lex_lt_asym,
    lemma_lex_lt_trans,
};

verus! {

/// Model of one entry of a candidate layer's `options` subdirectory.
pub struct OptionDirModel {
    pub name: Seq<u8>,
    pub is_dir: bool,
}

/// One entry of a candidate layer's `options` subdirectory.
pub struct OptionDir {
    /// Full path of the entry.
    pub name: Vec<u8>,
    /// Whether the entry is a directory.
    pub is_dir: bool,
}

impl View for OptionDir {
    type V = OptionDirModel;

    open spec fn view(&self) -> OptionDirModel {
        OptionDirModel { name: self.name@, is_dir: self.is_dir }
    }
}

/// Model of one immediate child of the layers root.
pub struct CandidateModel {
    pub name: Seq<u8>,
    pub is_dir: bool,
    pub disabled: bool,
    pub option_dirs: Seq<OptionDirModel>,
}

/// One immediate child of the layers root, as found on disk.
pub struct Candidate {
    /// Full path of the child.
    pub name: Vec<u8>,
    /// Whether the child is a directory.
    pub is_dir: bool,
    /// Whether the child carries the disabled marker file.
    pub disabled: bool,
    /// The immediate children of its `options` subdirectory, if any.
    pub option_dirs: Vec<OptionDir>,
}

impl View for Candidate {
    type V = CandidateModel;

    open spec fn view(&self) -> CandidateModel {
        CandidateModel {
            name: self.name@,
            is_dir: self.is_dir,
            disabled: self.disabled,
            option_dirs: Seq::new(self.option_dirs@.len(), |j: int| self.option_dirs@[j]@),
        }
    }
}

/// The views of a vector of candidates.
pub open spec fn candidate_models(s: Seq<Candidate>) -> Seq<CandidateModel> {
    Seq::new(s.len(), |i: int| s[i]@)
}

/// The views of a vector of layer paths.
pub open spec fn names_of(s: Seq<Vec<u8>>) -> Seq<Seq<u8>> {
    Seq::new(s.len(), |i: int| s[i]@)
}

/// Appending a path to a list extends the set of its views by exactly that
/// path's view.
pub proof fn lemma_names_push(s: Seq<Vec<u8>>, v: Vec<u8>)
    ensures
        forall|n: Seq<u8>|
            #![trigger names_of(s.push(v)).contains(n)]
            #![trigger names_of(s).contains(n)]
            names_of(s.push(v)).contains(n) <==> (names_of(s).contains(n) || n == v@),
{
    assert forall|n: Seq<u8>|
        names_of(s.push(v)).contains(n) <==> (names_of(s).contains(n) || n == v@) by {
        if names_of(s.push(v)).contains(n) {
            let w = choose|w: int| 0 <= w < s.push(v).len() && names_of(s.push(v))[w] == n;
            if w < s.len() {
                assert(names_of(s)[w] == n);
            }
        }
        if names_of(s).contains(n) {
            let w = choose|w: int| 0 <= w < s.len() && names_of(s)[w] == n;
            assert(names_of(s.push(v))[w] == n);
        }
        if n == v@ {
            assert(names_of(s.push(v))[s.len() as int] == n);
        }
    }
}

/// A candidate enters the merge as a layer iff it is a directory and does
/// not carry the disabled marker.
pub open spec fn kept(c: CandidateModel) -> bool {
    c.is_dir && !c.disabled
}

/// The layer paths one candidate supplies: its own path if it is kept, and
/// the path of each directory under its `options` subdirectory.
pub open spec fn candidate_contributes(c: CandidateModel, n: Seq<u8>) -> bool {
    kept(c) && (c.name == n || exists|j: int|
        0 <= j < c.option_dirs.len() && (#[trigger] c.option_dirs[j]).is_dir
            && c.option_dirs[j].name == n)
}

/// `n` is a layer path supplied by some candidate of the set.
pub open spec fn contributes(cands: Seq<CandidateModel>, n: Seq<u8>) -> bool {
    exists|i: int| 0 <= i < cands.len() && candidate_contributes(#[trigger] cands[i], n)
}

/// Strictly descending lexical order: the head is the greatest path, and no
/// path occurs twice.
pub open spec fn strictly_descending(s: Seq<Seq<u8>>) -> bool {
    forall|i: int, j: int| 0 <= i < j < s.len() ==> lex_lt(#[trigger] s[j], #[trigger] s[i])
}

/// Growing the candidate prefix by one extends the contributed set by
/// exactly that candidate's own contribution.
proof fn lemma_contributes_extend(cands: Seq<CandidateModel>, i: int)
    requires
        0 <= i < cands.len(),
    ensures
        forall|n: Seq<u8>|
            contributes(cands.take(i + 1), n) <==> (contributes(cands.take(i), n)
                || candidate_contributes(cands[i], n)),
{
    assert forall|n: Seq<u8>|
        contributes(cands.take(i + 1), n) <==> (contributes(cands.take(i), n)
            || candidate_contributes(cands[i], n)) by {
        if contributes(cands.take(i + 1), n) {
            let w = choose|w: int|
                0 <= w < cands.take(i + 1).len() && candidate_contributes(
                    #[trigger] cands.take(i + 1)[w],
                    n,
                );
            assert(cands.take(i + 1)[w] == cands[w]);
            if w < i {
                assert(cands.take(i)[w] == cands[w]);
                assert(contributes(cands.take(i), n));
            }
        }
        if contributes(cands.take(i), n) {
            let w = choose|w: int|
                0 <= w < cands.take(i).len() && candidate_contributes(
                    #[trigger] cands.take(i)[w],
                    n,
                );
            assert(cands.take(i + 1)[w] == cands[w]);
            assert(contributes(cands.take(i + 1), n));
        }
        if candidate_contributes(cands[i], n) {
            assert(cands.take(i + 1)[i] == cands[i]);
            assert(contributes(cands.take(i + 1), n));
        }
    }
}

/// Inserts a layer path into a strictly descending list, keeping the order
/// and dropping a duplicate.
fn insert_layer(out: &mut Vec<Vec<u8>>, name: Vec<u8>)
    requires
        strictly_descending(names_of(old(out)@)),
    ensures
        strictly_descending(names_of(final(out)@)),
        forall|n: Seq<u8>|
            names_of(final(out)@).contains(n) <==> (names_of(old(out)@).contains(n)
                || n == name@),
{
    let ghost orig = out@;
    let mut i: usize = 0;
    let mut present = false;
    loop
        invariant_except_break
            !present,
        invariant
            out@ == orig,
            strictly_descending(names_of(out@)),
            0 <= i <= out@.len(),
            forall|j: int| 0 <= j < i ==> lex_lt(name@, names_of(out@)[j]),
        ensures
            out@ == orig,
            0 <= i <= out@.len(),
            forall|j: int| 0 <= j < i ==> lex_lt(name@, names_of(out@)[j]),
            present ==> names_of(out@).contains(name@),
            !present ==> i == out@.len() || lex_lt(names_of(out@)[i as int], name@),
        decreases out@.len() - i,
    {
        if i == out.len() {
            break;
        }
        if bytes_eq(&out[i], &name) {
            assert(names_of(out@)[i as int] == name@);
            present = true;
            break;
        }
        if bytes_lt(&out[i], &name) {
            break;
        }
        proof {
            lemma_lex_lt_connected(out@[i as int]@, name@);
        }
        i = i + 1;
    }
    if present {
        // Identical paths collapse to one entry.
        return;
    }
    proof {
        // The new path equals no existing entry.
        assert forall|j: int| 0 <= j < out@.len() implies names_of(out@)[j] != name@ by {
            if j < i {
                lemma_lex_lt_asym(name@, names_of(out@)[j]);
            } else if j == i {
                lemma_lex_lt_asym(names_of(out@)[j], name@);
            } else {
                lemma_lex_lt_trans(names_of(out@)[j], names_of(out@)[i as int], name@);
                lemma_lex_lt_asym(names_of(out@)[j], name@);
            }
        }
    }
    let ghost before = out@;
    let ghost nv = name@;
    out.insert(i, name);
    proof {
        assert forall|p: int, q: int|
            0 <= p < q < out@.len() implies lex_lt(names_of(out@)[q], names_of(out@)[p]) by {
            let iv = i as int;
            if q < iv {
                assert(names_of(out@)[p] == names_of(before)[p]);
                assert(names_of(out@)[q] == names_of(before)[q]);
            } else if p > iv {
                assert(names_of(out@)[p] == names_of(before)[p - 1]);
                assert(names_of(out@)[q] == names_of(before)[q - 1]);
            } else if p == iv && q > iv {
                assert(names_of(out@)[q] == names_of(before)[q - 1]);
                if q - 1 > iv - 1 && q - 1 >= iv {
                    if q - 1 == iv {
                        assert(lex_lt(names_of(before)[q - 1], nv));
                    } else {
                        lemma_lex_lt_trans(
                            names_of(before)[q - 1],
                            names_of(before)[iv],
                            nv,
                        );
                    }
                }
            } else if q == iv && p < iv {
                assert(names_of(out@)[p] == names_of(before)[p]);
            } else {
                // p < iv < q
                assert(names_of(out@)[p] == names_of(before)[p]);
                assert(names_of(out@)[q] == names_of(before)[q - 1]);
                if q - 1 == iv {
                    lemma_lex_lt_trans(names_of(before)[q - 1], nv, names_of(before)[p]);
                } else {
                    lemma_lex_lt_trans(
                        names_of(before)[q - 1],
                        names_of(before)[iv],
                        nv,
                    );
                    lemma_lex_lt_trans(names_of(before)[q - 1], nv, names_of(before)[p]);
                }
            }
        }
        assert forall|n: Seq<u8>|
            names_of(out@).contains(n) <==> (names_of(before).contains(n) || n == nv) by {
            if names_of(out@).contains(n) {
                let w = choose|w: int| 0 <= w < out@.len() && names_of(out@)[w] == n;
                if w < i {
                    assert(names_of(before)[w] == n);
                } else if w > i {
                    assert(names_of(before)[w - 1] == n);
                }
            }
            if names_of(before).contains(n) {
                let w = choose|w: int| 0 <= w < before.len() && names_of(before)[w] == n;
                if w < i {
                    assert(names_of(out@)[w] == n);
                } else {
                    assert(names_of(out@)[w + 1] == n);
                }
            }
            if n == nv {
                assert(names_of(out@)[i as int] == n);
            }
        }
        assert(forall|n: Seq<u8>|
            names_of(out@).contains(n) <==> (names_of(old(out)@).contains(n) || n == name@));
    }
}

/// Orders the candidate set into the flat, deduplicated layer list, in
/// strictly descending lexical order of path. The list holds exactly the
/// paths the candidates supply: every kept candidate and every directory
/// under a kept candidate's `options` subdirectory.
pub fn order_layers(cands: &Vec<Candidate>) -> (out: Vec<Vec<u8>>)
    ensures
        strictly_descending(names_of(out@)),
        forall|n: Seq<u8>| names_of(out@).contains(n) <==> contributes(candidate_models(cands@), n),
{
    let ghost models = candidate_models(cands@);
    let mut out: Vec<Vec<u8>> = Vec::new();
    assert(models.take(0) =~= Seq::<CandidateModel>::empty());
    for ci in 0..cands.len()
        invariant
            models == candidate_models(cands@),
            strictly_descending(names_of(out@)),
            forall|n: Seq<u8>| names_of(out@).contains(n) <==> contributes(models.take(ci as int), n),
    {
        let c = &cands[ci];
        proof {
            assert(models[ci as int] == cands@[ci as int]@);
        }
        if c.is_dir && !c.disabled {
            insert_layer(&mut out, bytes_copy(&c.name));
            for oi in 0..c.option_dirs.len()
                invariant
                    models == candidate_models(cands@),
                    c == &cands@[ci as int],
                    ci < cands@.len(),
                    kept(models[ci as int]),
                    strictly_descending(names_of(out@)),
                    forall|n: Seq<u8>|
                        names_of(out@).contains(n) <==> (contributes(models.take(ci as int), n)
                            || models[ci as int].name == n
                            || exists|j: int|
                                0 <= j < oi && (#[trigger] models[ci as int].option_dirs[j]).is_dir
                                    && models[ci as int].option_dirs[j].name == n),
            {
                let o = &c.option_dirs[oi];
                proof {
                    assert(models[ci as int].option_dirs[oi as int] == c.option_dirs@[oi as int]@);
                }
                if o.is_dir {
                    insert_layer(&mut out, bytes_copy(&o.name));
                }
            }
            proof {
                lemma_contributes_extend(models, ci as int);
                assert forall|n: Seq<u8>|
                    names_of(out@).contains(n) <==> contributes(models.take(ci as int + 1), n) by {
                    let c_model = models[ci as int];
                    if names_of(out@).contains(n) {
                        assert(contributes(models.take(ci as int), n)
                            || candidate_contributes(c_model, n));
                    }
                    if contributes(models.take(ci as int + 1), n) {
                        assert(contributes(models.take(ci as int), n)
                            || candidate_contributes(c_model, n));
                    }
                }
            }
        } else {
            proof {
                lemma_contributes_extend(models, ci as int);
                assert(!kept(models[ci as int]));
            }
        }
    }
    proof {
        assert(models.take(cands@.len() as int) =~= models);
    }
    out
}

/// Law: a candidate directory carrying the disabled marker supplies no
/// layer. If its path is named by no other candidate and no `options`
/// entry, that path is absent from the ordered layer list, however high it
/// would have ranked.
pub proof fn lemma_disabled_excluded(cands: Seq<CandidateModel>, out: Seq<Seq<u8>>, c: int)
    requires
        forall|n: Seq<u8>| out.contains(n) <==> contributes(cands, n),
        0 <= c < cands.len(),
        cands[c].disabled,
        forall|i: int| 0 <= i < cands.len() && i != c ==> (#[trigger] cands[i]).name != cands[c].name,
        forall|i: int, j: int|
            0 <= i < cands.len() && 0 <= j < cands[i].option_dirs.len()
                ==> (#[trigger] cands[i].option_dirs[j]).name != cands[c].name,
    ensures
        !out.contains(cands[c].name),
{
    if out.contains(cands[c].name) {
        let w = choose|w: int|
            0 <= w < cands.len() && candidate_contributes(#[trigger] cands[w], cands[c].name);
        if w == c {
            assert(!kept(cands[w]));
        }
    }
}

} // verus!
