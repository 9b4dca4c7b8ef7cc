//! A three-component version identifier with a prerelease flag, its total
//! order, and its textual form.

use vstd::prelude::*;

use crate::error::ParseError;
use crate::text;

verus! {

use core::cmp::Ordering;

#[derive(Debug, Clone, Copy, PartialEq, Eq, Structural)]
pub struct Version {
    pub major: u32,
    pub minor: u32,
    pub patch: u32,
    pub is_prerelease: bool,
}

impl Version {
    /// The strict total order: lexicographic on (major, minor, patch); at an
    /// equal triple a prerelease version is lower than a stable one.
    pub open spec fn spec_lt(self, other: Version) -> bool {
        self.major < other.major || (self.major == other.major && (self.minor < other.minor || (
        self.minor == other.minor && (self.patch < other.patch || (self.patch == other.patch
            && self.is_prerelease && !other.is_prerelease)))))
    }

    pub open spec fn spec_le(self, other: Version) -> bool {
        self.spec_lt(other) || self == other
    }

    /// The canonical text: `major.minor.patch`, with `-pre` appended for a
    /// prerelease.
    pub open spec fn spec_chars(self) -> Seq<char> {
        text::spec_dec_digits(self.major as int) + seq!['.'] + text::spec_dec_digits(
            self.minor as int,
        ) + seq!['.'] + text::spec_dec_digits(self.patch as int) + (if self.is_prerelease {
            seq!['-', 'p', 'r', 'e']
        } else {
            Seq::empty()
        })
    }

    pub fn new(major: u32, minor: u32, patch: u32, is_prerelease: bool) -> (v: Version)
        ensures
            v == (Version { major, minor, patch, is_prerelease }),
    {
        Version { major, minor, patch, is_prerelease }
    }

    /// Strict comparison: true when `self` is greater in the total order.
    pub fn is_newer_than(&self, other: &Version) -> (r: bool)
        ensures
            r == other.spec_lt(*self),
    {
        if self.major != other.major {
            return self.major > other.major;
        }
        if self.minor != other.minor {
            return self.minor > other.minor;
        }
        if self.patch != other.patch {
            return self.patch > other.patch;
        }
        if self.is_prerelease != other.is_prerelease {
            return !self.is_prerelease;
        }
        false
    }

    /// Three-way comparison in the total order.
    pub fn cmp(&self, other: &Version) -> (r: Ordering)
        ensures
            r == Ordering::Less <==> self.spec_lt(*other),
            r == Ordering::Greater <==> other.spec_lt(*self),
            r == Ordering::Equal <==> *self == *other,
    {
        if self.major < other.major {
            Ordering::Less
        } else if self.major > other.major {
            Ordering::Greater
        } else if self.minor < other.minor {
            Ordering::Less
        } else if self.minor > other.minor {
            Ordering::Greater
        } else if self.patch < other.patch {
            Ordering::Less
        } else if self.patch > other.patch {
            Ordering::Greater
        } else if self.is_prerelease && !other.is_prerelease {
            Ordering::Less
        } else if !self.is_prerelease && other.is_prerelease {
            Ordering::Greater
        } else {
            Ordering::Equal
        }
    }

    /// Non-strict comparison in the total order.
    pub fn le(&self, other: &Version) -> (r: bool)
        ensures
            r == self.spec_le(*other),
    {
        proof {
            lemma_version_order_strict_total(*self, *other, *other);
            lemma_version_order_strict_total(*other, *self, *self);
        }
        !self.is_newer_than(other)
    }

    /// The display form: `major.minor.patch`, `-pre` appended when
    /// prerelease.
    pub fn version_string(&self) -> (r: String)
        ensures
            r@ == self.spec_chars(),
    {
        let mut out: Vec<char> = Vec::new();
        let d1 = text::u32_digits(self.major);
        text::push_all(&mut out, &d1);
        out.push('.');
        let d2 = text::u32_digits(self.minor);
        text::push_all(&mut out, &d2);
        out.push('.');
        let d3 = text::u32_digits(self.patch);
        text::push_all(&mut out, &d3);
        if self.is_prerelease {
            text::push_str_chars(&mut out, "-pre");
            proof {
                reveal_strlit("-pre");
                assert(("-pre")@ =~= seq!['-', 'p', 'r', 'e']);
            }
        }
        proof {
            assert(out@ =~= self.spec_chars());
        }
        text::chars_to_string(&out)
    }

    /// What `parse` yields on the trimmed input: the parsed version, or the
    /// message of the error.  An optional leading `v`/`V` is dropped; one to
    /// three dot-separated decimal groups follow, missing groups default to
    /// zero; the result is never marked prerelease.
    pub open spec fn spec_parse(s: Seq<char>) -> Result<Version, Seq<char>> {
        let t = text::spec_trim(s);
        if t.len() == 0 {
            Err("Cannot parse empty version"@)
        } else {
            let u = if t[0] == 'v' || t[0] == 'V' {
                t.drop_first()
            } else {
                t
            };
            let parts = text::spec_split(u, '.');
            if parts.len() > 3 {
                Err("Invalid version format"@)
            } else {
                match text::spec_parse_u32(parts[0]) {
                    None => Err("Invalid major"@),
                    Some(major) => {
                        let minor_part = if parts.len() > 1 {
                            text::spec_parse_u32(parts[1])
                        } else {
                            Some(0u32)
                        };
                        match minor_part {
                            None => Err("Invalid minor"@),
                            Some(minor) => {
                                let patch_part = if parts.len() > 2 {
                                    text::spec_parse_u32(parts[2])
                                } else {
                                    Some(0u32)
                                };
                                match patch_part {
                                    None => Err("Invalid patch"@),
                                    Some(patch) => Ok(
                                        Version { major, minor, patch, is_prerelease: false },
                                    ),
                                }
                            },
                        }
                    },
                }
            }
        }
    }

    /// Parses a version string.
    pub fn parse(s: &str) -> (r: Result<Version, ParseError>)
        ensures
            r matches Ok(v) ==> Self::spec_parse(s@) == Ok::<Version, Seq<char>>(v),
            r matches Err(e) ==> Self::spec_parse(s@) == Err::<Version, Seq<char>>(e.message@),
    {
        let chars = text::str_to_chars(s);
        Version::parse_chars(&chars)
    }

    /// Parses a version from characters.
    pub fn parse_chars(chars: &Vec<char>) -> (r: Result<Version, ParseError>)
        ensures
            r matches Ok(v) ==> Self::spec_parse(chars@) == Ok::<Version, Seq<char>>(v),
            r matches Err(e) ==> Self::spec_parse(chars@) == Err::<Version, Seq<char>>(
                e.message@,
            ),
    {
        let t = text::trim(&chars);
        if t.len() == 0 {
            return Err(ParseError::new("Cannot parse empty version".to_owned()));
        }
        let u = if t[0] == 'v' || t[0] == 'V' {
            text::subvec(&t, 1, t.len())
        } else {
            t
        };
        proof {
            assert(u@ =~= if text::spec_trim(chars@)[0] == 'v' || text::spec_trim(chars@)[0]
                == 'V' {
                text::spec_trim(chars@).drop_first()
            } else {
                text::spec_trim(chars@)
            });
        }
        let parts = text::split_char(&u, '.');
        if parts.len() > 3 {
            return Err(ParseError::new("Invalid version format".to_owned()));
        }
        proof {
            assert(parts@[0]@ == parts.deep_view()[0]);
        }
        let major = match text::parse_u32(&parts[0]) {
            Some(m) => m,
            None => {
                return Err(ParseError::new("Invalid major".to_owned()));
            },
        };
        let minor = if parts.len() > 1 {
            proof {
                assert(parts@[1]@ == parts.deep_view()[1]);
            }
            match text::parse_u32(&parts[1]) {
                Some(m) => m,
                None => {
                    return Err(ParseError::new("Invalid minor".to_owned()));
                },
            }
        } else {
            0
        };
        let patch = if parts.len() > 2 {
            proof {
                assert(parts@[2]@ == parts.deep_view()[2]);
            }
            match text::parse_u32(&parts[2]) {
                Some(m) => m,
                None => {
                    return Err(ParseError::new("Invalid patch".to_owned()));
                },
            }
        } else {
            0
        };
        Ok(Version { major, minor, patch, is_prerelease: false })
    }
}

impl PartialOrd for Version {
    fn partial_cmp(&self, other: &Version) -> (r: Option<Ordering>) {
        Some(Version::cmp(self, other))
    }
}

impl vstd::std_specs::cmp::PartialOrdSpecImpl for Version {
    open spec fn obeys_partial_cmp_spec() -> bool {
        true
    }

    open spec fn partial_cmp_spec(&self, other: &Version) -> Option<Ordering> {
        if self.spec_lt(*other) {
            Some(Ordering::Less)
        } else if *self == *other {
            Some(Ordering::Equal)
        } else {
            Some(Ordering::Greater)
        }
    }
}

/// The version order is a strict total order: irreflexive, asymmetric,
/// transitive, and total.
pub proof fn lemma_version_order_strict_total(a: Version, b: Version, c: Version)
    ensures
        !a.spec_lt(a),
        a.spec_lt(b) ==> !b.spec_lt(a),
        a.spec_lt(b) && b.spec_lt(c) ==> a.spec_lt(c),
        a.spec_lt(b) || b.spec_lt(a) || a == b,
{
}

/// A stable version's canonical text parses back to the same version.
pub proof fn lemma_version_string_parses(v: Version)
    requires
        !v.is_prerelease,
    ensures
        Version::spec_parse(v.spec_chars()) == Ok::<Version, Seq<char>>(v),
{
    let d1 = text::spec_dec_digits(v.major as int);
    let d2 = text::spec_dec_digits(v.minor as int);
    let d3 = text::spec_dec_digits(v.patch as int);
    text::lemma_dec_digits_ok(v.major as int);
    text::lemma_dec_digits_ok(v.minor as int);
    text::lemma_dec_digits_ok(v.patch as int);
    let s = v.spec_chars();
    assert(s =~= d1 + seq!['.'] + (d2 + seq!['.'] + d3));
    lemma_digits_not_space_or_dot(d1);
    lemma_digits_not_space_or_dot(d2);
    lemma_digits_not_space_or_dot(d3);
    lemma_trim_id(s);
    assert(text::spec_trim(s) == s);
    assert(s[0] == d1[0]);
    assert(s[0] != 'v' && s[0] != 'V');
    text::lemma_split_concat(d1, d2 + seq!['.'] + d3, '.');
    text::lemma_split_concat(d2, d3, '.');
    text::lemma_split_single(d3, '.');
    let parts = text::spec_split(s, '.');
    assert(parts =~= seq![d1, d2, d3]);
    assert(text::spec_parse_u32(d1) == Some(v.major));
    assert(text::spec_parse_u32(d2) == Some(v.minor));
    assert(text::spec_parse_u32(d3) == Some(v.patch));
}

proof fn lemma_digits_not_space_or_dot(d: Seq<char>)
    requires
        text::all_digits(d),
    ensures
        text::no_char(d, '.'),
        forall|i: int| 0 <= i < d.len() ==> !text::is_space(#[trigger] d[i]),
        d.len() > 0 ==> !text::is_space(d[0]) && !text::is_space(d.last()),
        d.len() > 0 ==> d[0] != 'v' && d[0] != 'V',
{
    assert forall|i: int| 0 <= i < d.len() implies #[trigger] d[i] != '.' by {
        assert(text::is_digit(d[i]));
    }
    assert forall|i: int| 0 <= i < d.len() implies !text::is_space(#[trigger] d[i]) by {
        assert(text::is_digit(d[i]));
    }
}

/// Trimming a digits-and-dots version string changes nothing.
proof fn lemma_trim_id(s: Seq<char>)
    requires
        s.len() > 0,
        !text::is_space(s[0]),
        !text::is_space(s.last()),
    ensures
        text::spec_trim(s) == s,
{
}


/// Strictly ascending: each key is less than the next.
pub open spec fn sorted_strict(vs: Seq<Version>) -> bool {
    forall|i: int, j: int| 0 <= i < j < vs.len() ==> vs[i].spec_lt(vs[j])
}

/// The distinct versions among the given optional ones, in ascending order.
pub fn sorted_unique_versions(vs: &Vec<Option<Version>>) -> (r: Vec<Version>)
    ensures
        sorted_strict(r@),
        forall|v: Version| r@.contains(v) <==> vs@.contains(Some(v)),
{
    let mut out: Vec<Version> = Vec::new();
    let n = vs.len();
    let mut i: usize = 0;
    while i < n
        invariant
            i <= n,
            n == vs@.len(),
            sorted_strict(out@),
            forall|v: Version| out@.contains(v) <==> vs@.take(i as int).contains(Some(v)),
        decreases n - i,
    {
        let ghost prev = out@;
        match &vs[i] {
            None => {},
            Some(v) => {
                let mut seen = false;
                let m = out.len();
                let mut k: usize = 0;
                while k < m
                    invariant
                        k <= m,
                        m == out@.len(),
                        seen <==> exists|t: int| 0 <= t < k && out@[t] == *v,
                    decreases m - k,
                {
                    if out[k] == *v {
                        seen = true;
                    }
                    k = k + 1;
                }
                proof {
                    assert(seen <==> out@.contains(*v));
                }
                if !seen {
                    let mut idx: usize = 0;
                    while idx < out.len() && !out[idx].is_newer_than(v)
                        invariant
                            idx <= out@.len(),
                            !out@.contains(*v),
                            forall|t: int| 0 <= t < idx ==> out@[t].spec_lt(*v),
                        decreases out@.len() - idx,
                    {
                        proof {
                            lemma_version_order_strict_total(*v, out@[idx as int], *v);
                            assert(out@[idx as int] != *v);
                            assert(out@[idx as int].spec_lt(*v));
                        }
                        idx = idx + 1;
                    }
                    proof {
                        if idx < out@.len() {
                            lemma_version_order_strict_total(*v, out@[idx as int], out@[idx as int]);
                            lemma_version_order_strict_total(out@[idx as int], *v, *v);
                            assert(!out@[idx as int].spec_lt(*v));
                            assert(!out@.contains(*v));
                            assert(out@[idx as int] != *v);
                            assert(v.spec_lt(out@[idx as int]));
                        }
                    }
                    out.insert(idx, *v);
                    proof {
                        let nv = out@;
                        assert(nv == prev.insert(idx as int, *v));
                        assert(nv.len() == prev.len() + 1);
                        assert(forall|t: int| 0 <= t < idx ==> #[trigger] nv[t] == prev[t]);
                        assert(nv[idx as int] == *v);
                        assert(forall|t: int|
                            idx < t < nv.len() ==> #[trigger] nv[t] == prev[t - 1]);
                        assert forall|a: int, b: int| 0 <= a < b < nv.len() implies nv[a].spec_lt(
                            nv[b],
                        ) by {
                            if a < idx && b == idx {
                                assert(prev[a].spec_lt(*v));
                            } else if a == idx && b > idx {
                                assert(v.spec_lt(prev[idx as int]));
                                if b - 1 > idx {
                                    assert(prev[idx as int].spec_lt(prev[b - 1]));
                                }
                                lemma_version_order_strict_total(*v, prev[idx as int], prev[b - 1]);
                            } else if a < idx && b > idx {
                                if a == b - 1 {
                                } else {
                                    assert(prev[a].spec_lt(prev[b - 1]));
                                }
                            } else if a < idx && b < idx {
                                assert(prev[a].spec_lt(prev[b]));
                            } else {
                                assert(prev[a - 1].spec_lt(prev[b - 1]));
                            }
                        }
                        assert forall|w: Version| nv.contains(w) implies (prev.contains(w) || w
                            == *v) by {
                            let t = choose|t: int| 0 <= t < nv.len() && nv[t] == w;
                            if t < idx {
                                assert(prev[t] == w);
                            } else if t > idx {
                                assert(prev[t - 1] == w);
                            }
                        }
                        assert forall|w: Version| prev.contains(w) implies nv.contains(w) by {
                            let t = choose|t: int| 0 <= t < prev.len() && prev[t] == w;
                            if t < idx {
                                assert(nv[t] == w);
                            } else {
                                assert(nv[t + 1] == w);
                            }
                        }
                        assert(nv.contains(*v)) by {
                            assert(nv[idx as int] == *v);
                        }
                    }
                }
            },
        }
        i = i + 1;
        proof {
            assert(vs@.take(i as int).drop_last() =~= vs@.take(i as int - 1));
            assert(vs@.take(i as int).last() == vs@[i as int - 1]);
            assert forall|v: Version| vs@.take(i as int).contains(Some(v)) implies out@.contains(
                v,
            ) by {
                let t = choose|t: int|
                    0 <= t < vs@.take(i as int).len() && #[trigger] vs@.take(i as int)[t]
                        == Some(v);
                if t < i - 1 {
                    assert(vs@.take(i as int - 1)[t] == Some(v));
                }
            }
            assert forall|v: Version| out@.contains(v) implies vs@.take(i as int).contains(
                Some(v),
            ) by {
                if vs@.take(i as int - 1).contains(Some(v)) {
                    let t = choose|t: int|
                        0 <= t < vs@.take(i as int - 1).len() && #[trigger] vs@.take(
                            i as int - 1,
                        )[t] == Some(v);
                    assert(vs@.take(i as int)[t] == Some(v));
                } else {
                    assert(vs@.take(i as int)[i - 1] == Some(v));
                }
            }
        }
    }
    proof {
        assert(vs@.take(n as int) =~= vs@);
    }
    out
}

} // verus!
