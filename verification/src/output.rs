//! Output path templating: a pattern with a directory component and a
//! filename component holding the literal `{}` marker; each variant's number
//! replaces the marker.
//!
//! Patterns are treated as `/`-separated byte strings.

use vstd::prelude::*;

verus! {

/// Why a pattern was rejected.
#[derive(Debug)]
pub enum PatternError {
    /// The pattern has no filename component.
    MissingComponents,
    /// The filename component holds no `{}` marker.
    MissingMarker,
}

/// The byte `s[i]` starts a `{}` marker.
pub open spec fn marker_at(s: Seq<u8>, i: int) -> bool {
    0 <= i && i + 2 <= s.len() && s[i] == 123 && s[i + 1] == 125
}

/// Some position of `s` starts a `{}` marker.
pub open spec fn has_marker(s: Seq<u8>) -> bool {
    exists|i: int| marker_at(s, i)
}

/// The byte `s[i]` is the last `/` of `s`.
pub open spec fn last_slash_at(s: Seq<u8>, i: int) -> bool {
    0 <= i < s.len() && s[i] == 47 && (forall|j: int| i < j < s.len() ==> s[j] != 47)
}

/// The filename component: everything after the last `/`, or the whole
/// pattern when it has no `/`.
pub open spec fn file_part(s: Seq<u8>) -> Seq<u8> {
    if exists|i: int| last_slash_at(s, i) {
        s.skip((choose|i: int| last_slash_at(s, i)) + 1)
    } else {
        s
    }
}

/// The directory component: everything before the last `/`, or empty.
pub open spec fn dir_part(s: Seq<u8>) -> Seq<u8> {
    if exists|i: int| last_slash_at(s, i) {
        s.take(choose|i: int| last_slash_at(s, i))
    } else {
        Seq::empty()
    }
}

/// The decimal rendering of `n`.
pub open spec fn decimal(n: nat) -> Seq<u8>
    decreases n,
{
    if n < 10 {
        seq![(48 + n) as u8]
    } else {
        decimal(n / 10) + seq![(48 + n % 10) as u8]
    }
}

/// An output pattern split at its `{}` marker: paths are produced as
/// `dirname/` (when a directory component exists) followed by the prefix,
/// the decimal number, and the suffix.
pub struct OutputPattern {
    dirname: Vec<u8>,
    filename_prefix: Vec<u8>,
    filename_suffix: Vec<u8>,
}

impl OutputPattern {
    /// The directory component the pattern was split from.
    pub closed spec fn spec_dirname(&self) -> Seq<u8> {
        self.dirname@
    }

    /// The filename bytes before the marker.
    pub closed spec fn spec_prefix(&self) -> Seq<u8> {
        self.filename_prefix@
    }

    /// The filename bytes after the marker.
    pub closed spec fn spec_suffix(&self) -> Seq<u8> {
        self.filename_suffix@
    }

    /// Split `pattern` into directory, filename prefix and filename suffix
    /// around the first `{}` marker of the filename component. A pattern
    /// whose filename component is empty is rejected with
    /// [`PatternError::MissingComponents`]; one whose filename holds no
    /// marker with [`PatternError::MissingMarker`].
    pub fn from_path(pattern: &[u8]) -> (r: Result<OutputPattern, PatternError>)
        ensures
            (r matches Err(PatternError::MissingComponents)) <==> file_part(pattern@).len() == 0,
            (r matches Err(PatternError::MissingMarker)) <==> (file_part(pattern@).len() > 0
                && !has_marker(file_part(pattern@))),
            (r matches Ok(p) ==> {
                let f = file_part(pattern@);
                exists|k: int|
                    {
                        &&& #[trigger] marker_at(f, k)
                        &&& forall|j: int| 0 <= j < k ==> !marker_at(f, j)
                        &&& p.spec_dirname() == dir_part(pattern@)
                        &&& p.spec_prefix() == f.take(k)
                        &&& p.spec_suffix() == f.skip(k + 2)
                    }
            }),
            (r is Ok) <==> has_marker(file_part(pattern@)),
    {
        let n = pattern.len();
        let mut slash: usize = 0;
        let mut has_slash = false;
        let mut i: usize = 0;
        while i < n
            invariant
                i <= n,
                n == pattern@.len(),
                has_slash ==> (slash < i && pattern@[slash as int] == 47 && (forall|j: int|
                    slash < j < i ==> pattern@[j] != 47)),
                !has_slash ==> (forall|j: int| 0 <= j < i ==> pattern@[j] != 47),
            decreases n - i,
        {
            if pattern[i] == 47 {
                slash = i;
                has_slash = true;
            }
            i = i + 1;
        }
        let ghost s = pattern@;
        proof {
            if has_slash {
                assert(last_slash_at(s, slash as int));
                let w = choose|q: int| last_slash_at(s, q);
                assert(w == slash as int) by {
                    if w < slash as int {
                        assert(s[slash as int] == 47);
                    } else if w > slash as int {
                        assert(s[w] != 47);
                    }
                }
            } else {
                assert forall|q: int| !last_slash_at(s, q) by {
                    if 0 <= q < s.len() {
                        assert(s[q] != 47);
                    }
                }
            }
        }
        let fstart: usize = if has_slash {
            slash + 1
        } else {
            0
        };
        proof {
            assert(file_part(s) == s.skip(fstart as int));
            assert(dir_part(s) == (if has_slash {
                s.take(slash as int)
            } else {
                Seq::<u8>::empty()
            }));
        }
        let ghost f = file_part(s);
        if fstart == n {
            proof {
                assert(f.len() == 0);
            }
            return Err(PatternError::MissingComponents);
        }
        let flen = n - fstart;
        let mut k: usize = 0;
        let mut found = false;
        while !found && k < flen - 1
            invariant
                flen >= 1,
                k + 2 <= flen + 1,
                flen == f.len(),
                n == pattern@.len(),
                f == pattern@.skip(fstart as int),
                fstart + flen == n,
                !found ==> (forall|j: int| 0 <= j < k ==> !marker_at(f, j)),
                found ==> marker_at(f, k as int) && (forall|j: int| 0 <= j < k ==> !marker_at(f, j)),
            decreases flen - k + (if found {
                0int
            } else {
                1int
            }),
        {
            if pattern[fstart + k] == 123 && pattern[fstart + k + 1] == 125 {
                found = true;
                proof {
                    assert(f[k as int] == pattern@[fstart + k]);
                    assert(f[k + 1] == pattern@[fstart + k + 1]);
                    assert(marker_at(f, k as int));
                }
            } else {
                proof {
                    assert(f[k as int] == pattern@[fstart + k]);
                    assert(f[k + 1] == pattern@[fstart + k + 1]);
                    assert(!marker_at(f, k as int));
                }
                k = k + 1;
            }
        }
        if !found {
            proof {
                assert forall|j: int| !marker_at(f, j) by {
                    if 0 <= j && j + 2 <= f.len() {
                        assert(j < k + 2);
                    }
                }
            }
            return Err(PatternError::MissingMarker);
        }
        let dirname = if has_slash {
            crate::parse::sub_vec(pattern, 0, slash)
        } else {
            Vec::new()
        };
        let filename_prefix = crate::parse::sub_vec(pattern, fstart, fstart + k);
        let filename_suffix = crate::parse::sub_vec(pattern, fstart + k + 2, n);
        let p = OutputPattern { dirname, filename_prefix, filename_suffix };
        proof {
            assert(p.spec_dirname() == dir_part(s));
            assert(p.spec_prefix() =~= f.take(k as int));
            assert(p.spec_suffix() =~= f.skip(k + 2));
        }
        Ok(p)
    }

    /// The output path for variant number `value`: the directory component
    /// (followed by `/` when present), then the filename with the decimal
    /// number in place of the marker.
    pub fn with(&self, value: usize) -> (path: Vec<u8>)
        ensures
            path@ == (if self.spec_dirname().len() > 0 {
                self.spec_dirname() + seq![47u8]
            } else {
                Seq::<u8>::empty()
            }) + self.spec_prefix() + decimal(value as nat) + self.spec_suffix(),
    {
        let mut path: Vec<u8> = Vec::new();
        if self.dirname.len() > 0 {
            append_bytes(&mut path, &self.dirname);
            path.push(47);
            proof {
                assert(path@ =~= self.spec_dirname() + seq![47u8]);
            }
        }
        append_bytes(&mut path, &self.filename_prefix);
        let digits = to_decimal(value);
        append_bytes(&mut path, &digits);
        append_bytes(&mut path, &self.filename_suffix);
        path
    }
}

/// Append `v` to `out`.
fn append_bytes(out: &mut Vec<u8>, v: &Vec<u8>)
    ensures
        final(out)@ == old(out)@ + v@,
{
    let ghost pre = out@;
    out.extend_from_slice(v.as_slice());
    proof {
        assert forall|i: int| 0 <= i < out@.len() implies out@[i] == (pre + v@)[i] by {
            if i >= pre.len() {
                assert(cloned::<u8>(v@[i - pre.len()], out@[i]));
            }
        }
        assert(out@ =~= pre + v@);
    }
}

/// The decimal rendering of `n`, as bytes.
fn to_decimal(n: usize) -> (out: Vec<u8>)
    ensures
        out@ == decimal(n as nat),
{
    if n == 0 {
        let mut out: Vec<u8> = Vec::new();
        out.push(48);
        proof {
            assert(out@ =~= decimal(0));
        }
        return out;
    }
    let mut digits: Vec<u8> = Vec::new();
    let mut v = n;
    while v > 0
        invariant
            v > 0 ==> decimal(n as nat) == decimal(v as nat) + digits@.reverse(),
            v == 0 ==> decimal(n as nat) == digits@.reverse(),
        decreases v,
    {
        let d: u8 = 48 + (v % 10) as u8;
        let ghost before = digits@;
        digits.push(d);
        proof {
            assert(digits@.reverse() =~= seq![d] + before.reverse());
            if v >= 10 {
                assert(v / 10 > 0) by (nonlinear_arith)
                    requires
                        v >= 10,
                ;
                assert(decimal(v as nat) == decimal((v / 10) as nat) + seq![
                    (48 + (v as nat) % 10) as u8,
                ]);
                assert(decimal((v / 10) as nat) + seq![d] + before.reverse() =~= decimal(
                    (v / 10) as nat,
                ) + (seq![d] + before.reverse()));
            } else {
                assert(decimal(v as nat) == seq![(48 + (v as nat)) as u8]);
                assert((v as nat) % 10 == v as nat);
                assert(seq![d] + before.reverse() =~= decimal(v as nat) + before.reverse());
            }
        }
        v = v / 10;
    }
    let mut out: Vec<u8> = Vec::new();
    let mut k: usize = digits.len();
    while k > 0
        invariant
            k <= digits@.len(),
            out@ == digits@.reverse().take((digits@.len() - k) as int),
        decreases k,
    {
        k = k - 1;
        out.push(digits[k]);
        proof {
            let rev = digits@.reverse();
            let done = (digits@.len() - k) as int;
            assert(rev[done - 1] == digits@[k as int]);
            assert(rev.take(done) =~= rev.take(done - 1).push(digits@[k as int]));
        }
    }
    proof {
        assert(digits@.reverse().take(digits@.len() as int) =~= digits@.reverse());
    }
    out
}

} // verus!
