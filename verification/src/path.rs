//! File paths: a path is an absolute/relative flag and the sequence of its
//! components. Parsing splits on `/` and drops empty components; reduction
//! removes `.` components and resolves `..` against the preceding
//! component.

use vstd::prelude::*;

verus! {

use vstd::string::StringSliceAdditionalSpecFns;

/// The component separator.
pub const SEPARATOR: u8 = 47;

/// The byte of the `.` component.
pub const DOT: u8 = 46;

/// The `.` component.
pub open spec fn dot() -> Seq<u8> {
    seq![DOT]
}

/// The `..` component.
pub open spec fn dot_dot() -> Seq<u8> {
    seq![DOT, DOT]
}

/// The length of the leading separator-free segment of `s`.
pub open spec fn seg_len(s: Seq<u8>) -> nat
    decreases s.len(),
{
    if s.len() == 0 || s[0] == SEPARATOR {
        0
    } else {
        1 + seg_len(s.subrange(1, s.len() as int))
    }
}

/// The leading segment length never exceeds the string, and is positive
/// when the string starts inside a segment.
pub proof fn lemma_seg_len_bounds(s: Seq<u8>)
    ensures
        seg_len(s) <= s.len(),
        s.len() > 0 && s[0] != SEPARATOR ==> seg_len(s) >= 1,
    decreases s.len(),
{
    if s.len() != 0 && s[0] != SEPARATOR {
        lemma_seg_len_bounds(s.subrange(1, s.len() as int));
    }
}

/// The components of a byte string: the separator-free segments between
/// `/` bytes, empty segments dropped.
pub open spec fn split_bytes(s: Seq<u8>) -> Seq<Seq<u8>>
    decreases s.len(),
    via split_bytes_decreases
{
    if s.len() == 0 {
        Seq::empty()
    } else if s[0] == SEPARATOR {
        split_bytes(s.subrange(1, s.len() as int))
    } else {
        seq![s.subrange(0, seg_len(s) as int)] + split_bytes(
            s.subrange(seg_len(s) as int, s.len() as int),
        )
    }
}

#[via_fn]
proof fn split_bytes_decreases(s: Seq<u8>) {
    lemma_seg_len_bounds(s);
}

/// The byte string of a component sequence: the components joined by `/`.
pub open spec fn join_parts(parts: Seq<Seq<u8>>) -> Seq<u8>
    decreases parts.len(),
{
    if parts.len() == 0 {
        Seq::empty()
    } else if parts.len() == 1 {
        parts[0]
    } else {
        parts[0] + seq![SEPARATOR] + join_parts(parts.subrange(1, parts.len() as int))
    }
}

/// One step of path reduction: how a component changes the already
/// reduced prefix.
pub open spec fn reduce_step(absolute: bool, acc: Seq<Seq<u8>>, p: Seq<u8>) -> Seq<Seq<u8>> {
    if p == dot() {
        acc
    } else if p == dot_dot() {
        if acc.len() > 0 && acc.last() != dot_dot() {
            acc.drop_last()
        } else if absolute {
            acc
        } else {
            acc.push(p)
        }
    } else {
        acc.push(p)
    }
}

/// Reduction of the components from position `i` on, given the already
/// reduced prefix `acc`.
pub open spec fn reduce_from(
    absolute: bool,
    parts: Seq<Seq<u8>>,
    i: int,
    acc: Seq<Seq<u8>>,
) -> Seq<Seq<u8>>
    decreases parts.len() - i,
{
    if i < 0 || i >= parts.len() {
        acc
    } else {
        reduce_from(absolute, parts, i + 1, reduce_step(absolute, acc, parts[i]))
    }
}

/// The fully reduced component sequence of a path.
pub open spec fn spec_reduce(absolute: bool, parts: Seq<Seq<u8>>) -> Seq<Seq<u8>> {
    reduce_from(absolute, parts, 0, Seq::empty())
}

/// The byte sequences of a sequence of byte vectors.
pub open spec fn views_of(s: Seq<Vec<u8>>) -> Seq<Seq<u8>> {
    s.map_values(|p: Vec<u8>| p@)
}

/// A structure representing a path to a file.
pub struct Path {
    /// Tells whether the path is absolute or relative.
    absolute: bool,
    /// The components of the path, in order.
    parts: Vec<Vec<u8>>,
}

/// `seg_len` names the position of the first separator (or the end).
proof fn lemma_seg_len_at(s: Seq<u8>, k: int)
    requires
        0 <= k <= s.len(),
        forall|j: int| 0 <= j < k ==> s[j] != SEPARATOR,
        k == s.len() || s[k] == SEPARATOR,
    ensures
        seg_len(s) == k,
    decreases s.len(),
{
    if s.len() == 0 || s[0] == SEPARATOR {
    } else {
        let tail = s.subrange(1, s.len() as int);
        lemma_seg_len_at(tail, k - 1);
    }
}

/// Copies a byte vector.
fn copy_bytes(v: &Vec<u8>) -> (r: Vec<u8>)
    ensures
        r@ == v@,
{
    let mut r: Vec<u8> = Vec::new();
    let mut i: usize = 0;
    while i < v.len()
        invariant
            i <= v@.len(),
            r@ == v@.subrange(0, i as int),
        decreases v@.len() - i,
    {
        r.push(v[i]);
        proof {
            assert(r@ =~= v@.subrange(0, i + 1));
        }
        i = i + 1;
    }
    proof {
        assert(r@ =~= v@);
    }
    r
}

/// Tells whether the component is `.`.
fn is_dot(v: &Vec<u8>) -> (r: bool)
    ensures
        r == (v@ == dot()),
{
    let r = v.len() == 1 && v[0] == DOT;
    proof {
        if r {
            assert(v@ =~= dot());
        } else {
            assert(v@ != dot()) by {
                if v@.len() == dot().len() && v@[0] == dot()[0] {
                    assert(v@ =~= dot());
                }
            }
        }
    }
    r
}

/// Tells whether the component is `..`.
fn is_dot_dot(v: &Vec<u8>) -> (r: bool)
    ensures
        r == (v@ == dot_dot()),
{
    let r = v.len() == 2 && v[0] == DOT && v[1] == DOT;
    proof {
        if r {
            assert(v@ =~= dot_dot());
        } else {
            assert(v@ != dot_dot()) by {
                if v@.len() == dot_dot().len() && v@[0] == dot_dot()[0] && v@[1] == dot_dot()[1] {
                    assert(v@ =~= dot_dot());
                }
            }
        }
    }
    r
}

impl Path {
    /// The absolute flag of the path.
    pub closed spec fn spec_absolute(self) -> bool {
        self.absolute
    }

    /// The components of the path.
    pub closed spec fn spec_parts(self) -> Seq<Seq<u8>> {
        views_of(self.parts@)
    }

    /// Splits the bytes of `path` from position `i` into components.
    fn split_from(bytes: &[u8], i: usize) -> (r: Vec<Vec<u8>>)
        requires
            i <= bytes@.len(),
        ensures
            views_of(r@) == split_bytes(bytes@.subrange(i as int, bytes@.len() as int)),
        decreases bytes@.len() - i,
    {
        let ghost s = bytes@.subrange(i as int, bytes@.len() as int);
        let n = bytes.len();
        if i == n {
            let r: Vec<Vec<u8>> = Vec::new();
            proof {
                assert(views_of(r@) =~= split_bytes(s));
            }
            r
        } else if bytes[i] == SEPARATOR {
            let r = Self::split_from(bytes, i + 1);
            proof {
                assert(bytes@.subrange(i + 1, bytes@.len() as int) =~= s.subrange(
                    1,
                    s.len() as int,
                ));
            }
            r
        } else {
            // Scan the segment up to the next separator.
            let mut j = i + 1;
            while j < n && bytes[j] != SEPARATOR
                invariant
                    i < j <= n,
                    n == bytes@.len(),
                    forall|t: int| i <= t < j ==> bytes@[t] != SEPARATOR,
                decreases n - j,
            {
                j = j + 1;
            }
            proof {
                lemma_seg_len_at(s, j - i);
            }
            let mut seg: Vec<u8> = Vec::new();
            let mut t = i;
            while t < j
                invariant
                    i <= t <= j <= n,
                    n == bytes@.len(),
                    seg@ == bytes@.subrange(i as int, t as int),
                decreases j - t,
            {
                seg.push(bytes[t]);
                proof {
                    assert(seg@ =~= bytes@.subrange(i as int, t + 1));
                }
                t = t + 1;
            }
            let rest = Self::split_from(bytes, j);
            let ghost seg_view = seg@;
            let ghost rest_view = views_of(rest@);
            let mut r: Vec<Vec<u8>> = Vec::new();
            r.push(seg);
            proof {
                assert(views_of(r@) =~= seq![seg_view] + rest_view.subrange(
                    0,
                    0,
                ));
            }
            let mut k: usize = 0;
            while k < rest.len()
                invariant
                    k <= rest@.len(),
                    r@.len() == k + 1,
                    rest_view == views_of(rest@),
                    views_of(r@) == seq![seg_view] + rest_view.subrange(
                        0,
                        k as int,
                    ),
                decreases rest@.len() - k,
            {
                let ghost r0 = r@;
                let part = copy_bytes(&rest[k]);
                let ghost partv = part@;
                r.push(part);
                proof {
                    assert(partv == rest@[k as int]@);
                    assert(partv == rest_view[k as int]);
                    assert forall|t: int| 0 <= t < k + 2 implies views_of(r@)[t] == (
                    seq![seg_view] + rest_view.subrange(0, k + 1))[t] by {
                        assert(views_of(r@)[t] == r@[t]@);
                        if t < k + 1 {
                            assert(r@[t] == r0[t]);
                            assert(views_of(r0)[t] == r0[t]@);
                        } else {
                            assert(r@[t]@ == partv);
                        }
                    }
                    assert(views_of(r@) =~= seq![seg_view] + rest_view.subrange(0, k + 1));
                }
                k = k + 1;
            }
            proof {
                assert(rest_view.subrange(0, rest_view.len() as int) =~= rest_view);
            }
            proof {
                assert(seg@ =~= s.subrange(0, seg_len(s) as int));
                assert(bytes@.subrange(j as int, bytes@.len() as int) =~= s.subrange(
                    seg_len(s) as int,
                    s.len() as int,
                ));
                assert(views_of(r@) =~= split_bytes(s));
            }
            r
        }
    }

    /// Creates a path from a string: a leading `/` makes it absolute, and
    /// the separator-free pieces between `/` bytes are its components.
    pub fn from_string(path: &str) -> (r: Path)
        requires
            path.spec_bytes().len() > 0,
        ensures
            r.spec_absolute() == (path.spec_bytes()[0] == SEPARATOR),
            r.spec_parts() == split_bytes(path.spec_bytes()),
    {
        let bytes = path.as_bytes();
        let absolute = bytes.len() > 0 && bytes[0] == SEPARATOR;
        let parts = Self::split_from(bytes, 0);
        proof {
            assert(bytes@.subrange(0, bytes@.len() as int) =~= bytes@);
        }
        Path { absolute, parts }
    }

    /// Tells whether the path is absolute or not.
    pub fn is_absolute(&self) -> (r: bool)
        ensures
            r == self.spec_absolute(),
    {
        self.absolute
    }

    /// Joins the components from position `i` on with separators.
    fn join_from(&self, i: usize) -> (r: Vec<u8>)
        requires
            i <= self.spec_parts().len(),
        ensures
            r@ == join_parts(self.spec_parts().subrange(i as int, self.spec_parts().len() as int)),
        decreases self.spec_parts().len() - i,
    {
        let ghost ps = self.spec_parts().subrange(i as int, self.spec_parts().len() as int);
        let n = self.parts.len();
        if i == n {
            let r: Vec<u8> = Vec::new();
            proof {
                assert(r@ =~= join_parts(ps));
            }
            r
        } else if i + 1 == n {
            let r = copy_bytes(&self.parts[i]);
            proof {
                assert(r@ =~= join_parts(ps));
            }
            r
        } else {
            let mut r = copy_bytes(&self.parts[i]);
            r.push(SEPARATOR);
            let rest = self.join_from(i + 1);
            let mut k: usize = 0;
            while k < rest.len()
                invariant
                    k <= rest@.len(),
                    r@ == self.spec_parts()[i as int] + seq![SEPARATOR] + rest@.subrange(
                        0,
                        k as int,
                    ),
                decreases rest@.len() - k,
            {
                r.push(rest[k]);
                proof {
                    assert(r@ =~= self.spec_parts()[i as int] + seq![SEPARATOR] + rest@.subrange(
                        0,
                        k + 1,
                    ));
                }
                k = k + 1;
            }
            proof {
                assert(rest@.subrange(0, rest@.len() as int) =~= rest@);
                assert(self.spec_parts().subrange(i + 1, self.spec_parts().len() as int) =~= ps.subrange(1, ps.len() as int));
                assert(r@ =~= join_parts(ps));
            }
            r
        }
    }

    /// Renders the path as bytes: the components joined by `/`, with a
    /// leading `/` when the path is absolute.
    pub fn as_string(&self) -> (r: Vec<u8>)
        ensures
            r@ == (if self.spec_absolute() {
                seq![SEPARATOR]
            } else {
                Seq::<u8>::empty()
            }) + join_parts(self.spec_parts()),
    {
        let joined = self.join_from(0);
        proof {
            assert(self.spec_parts().subrange(0, self.spec_parts().len() as int)
                =~= self.spec_parts());
        }
        if self.absolute {
            let mut r: Vec<u8> = Vec::new();
            r.push(SEPARATOR);
            let mut k: usize = 0;
            while k < joined.len()
                invariant
                    k <= joined@.len(),
                    r@ == seq![SEPARATOR] + joined@.subrange(0, k as int),
                decreases joined@.len() - k,
            {
                r.push(joined[k]);
                proof {
                    assert(r@ =~= seq![SEPARATOR] + joined@.subrange(0, k + 1));
                }
                k = k + 1;
            }
            proof {
                assert(joined@.subrange(0, joined@.len() as int) =~= joined@);
            }
            r
        } else {
            proof {
                assert(Seq::<u8>::empty() + joined@ =~= joined@);
            }
            joined
        }
    }

    /// Reduces the path, removing all superfluous `.` and `..`
    /// components.
    pub fn reduce(&mut self)
        ensures
            final(self).spec_absolute() == old(self).spec_absolute(),
            final(self).spec_parts() == spec_reduce(
                old(self).spec_absolute(),
                old(self).spec_parts(),
            ),
    {
        let ghost parts0 = self.spec_parts();
        let ghost abs = self.absolute;
        let mut acc: Vec<Vec<u8>> = Vec::new();
        proof {
            assert(views_of(acc@) =~= Seq::<Seq<u8>>::empty());
        }
        let mut i: usize = 0;
        let n = self.parts.len();
        while i < n
            invariant
                i <= n,
                n == self.parts@.len(),
                parts0 == self.spec_parts(),
                abs == self.absolute,
                spec_reduce(abs, parts0) == reduce_from(
                    abs,
                    parts0,
                    i as int,
                    views_of(acc@),
                ),
            decreases n - i,
        {
            let ghost acc0 = views_of(acc@);
            let p = &self.parts[i];
            proof {
                assert(parts0[i as int] == p@);
            }
            if is_dot(p) {
            } else if is_dot_dot(p) {
                proof {
                    assert(parts0[i as int] != dot()) by {
                        assert(dot_dot().len() != dot().len());
                    }
                }
                let pop = if acc.len() > 0 {
                    !is_dot_dot(&acc[acc.len() - 1])
                } else {
                    false
                };
                if pop {
                    let _ = acc.pop();
                    proof {
                        assert(views_of(acc@) =~= acc0.drop_last());
                    }
                } else if self.absolute {
                } else {
                    let d = copy_bytes(p);
                    acc.push(d);
                    proof {
                        assert(views_of(acc@) =~= acc0.push(parts0[i as int]));
                    }
                }
                proof {
                    if acc0.len() > 0 {
                        assert(acc0.last() == acc0[acc0.len() - 1]);
                        assert((acc0.last() != dot_dot()) == pop);
                    }
                }
            } else {
                let d = copy_bytes(p);
                acc.push(d);
                proof {
                    assert(views_of(acc@) =~= acc0.push(parts0[i as int]));
                }
            }
            proof {
                assert(views_of(acc@) == reduce_step(
                    abs,
                    acc0,
                    parts0[i as int],
                ));
            }
            i = i + 1;
        }
        self.parts = acc;
    }

    /// Concatenates the current path with `other`: the result carries the
    /// current path's absolute flag and the two component sequences in
    /// order. The result is not automatically reduced.
    pub fn concat(&self, other: &Self) -> (r: Path)
        ensures
            r.spec_absolute() == self.spec_absolute(),
            r.spec_parts() == self.spec_parts() + other.spec_parts(),
    {
        let mut parts: Vec<Vec<u8>> = Vec::new();
        let mut i: usize = 0;
        while i < self.parts.len()
            invariant
                i <= self.parts@.len(),
                parts@.len() == i,
                views_of(parts@) == self.spec_parts().subrange(0, i as int),
            decreases self.parts@.len() - i,
        {
            let d = copy_bytes(&self.parts[i]);
            parts.push(d);
            proof {
                assert(views_of(parts@) =~= self.spec_parts().subrange(0, i + 1));
            }
            i = i + 1;
        }
        let mut j: usize = 0;
        while j < other.parts.len()
            invariant
                j <= other.parts@.len(),
                parts@.len() == self.parts@.len() + j,
                views_of(parts@) == self.spec_parts().subrange(
                    0,
                    self.spec_parts().len() as int,
                ) + other.spec_parts().subrange(0, j as int),
            decreases other.parts@.len() - j,
        {
            let ghost parts1 = parts@;
            let d = copy_bytes(&other.parts[j]);
            let ghost dv = d@;
            parts.push(d);
            proof {
                let ghost rhs = self.spec_parts().subrange(
                    0,
                    self.spec_parts().len() as int,
                ) + other.spec_parts().subrange(0, j + 1);
                assert(dv == other.spec_parts()[j as int]);
                assert forall|t: int| 0 <= t < parts@.len() implies views_of(parts@)[t]
                    == rhs[t] by {
                    assert(views_of(parts@)[t] == parts@[t]@);
                    if t < parts1.len() {
                        assert(parts@[t] == parts1[t]);
                        assert(views_of(parts1)[t] == parts1[t]@);
                    } else {
                        assert(parts@[t]@ == dv);
                    }
                }
                assert(views_of(parts@) =~= rhs);
            }
            j = j + 1;
        }
        proof {
            assert(self.spec_parts().subrange(0, self.spec_parts().len() as int)
                =~= self.spec_parts());
            assert(other.spec_parts().subrange(0, other.spec_parts().len() as int)
                =~= other.spec_parts());
        }
        let r = Path { absolute: self.absolute, parts };
        proof {
            assert(r.spec_parts() =~= self.spec_parts() + other.spec_parts());
        }
        r
    }
}

} // verus!
