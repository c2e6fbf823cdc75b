//! A small JSON reader for the flat wire documents of the protocol.
//!
//! Every document this client consumes is one JSON object whose member
//! values are strings, numbers, or other balanced JSON values that are
//! passed along verbatim.  The reader works on bytes; string values are
//! returned unescaped.

use vstd::prelude::*;

verus! {

/// JSON whitespace.
pub open spec fn is_ws(c: u8) -> bool {
    c == 32 || c == 9 || c == 10 || c == 13
}

/// First position at or after `i` holding no whitespace.
pub open spec fn spec_skip_ws(s: Seq<u8>, i: int) -> int
    decreases s.len() - i
        when 0 <= i <= s.len()
{
    if i < s.len() && is_ws(s[i]) {
        spec_skip_ws(s, i + 1)
    } else {
        i
    }
}

pub proof fn lemma_skip_ws_bounds(s: Seq<u8>, i: int)
    requires
        0 <= i <= s.len(),
    ensures
        i <= spec_skip_ws(s, i) <= s.len(),
    decreases s.len() - i,
{
    if i < s.len() && is_ws(s[i]) {
        lemma_skip_ws_bounds(s, i + 1);
    }
}

pub(crate) fn skip_ws(s: &[u8], i: usize) -> (r: usize)
    requires
        i <= s.len(),
    ensures
        r as int == spec_skip_ws(s@, i as int),
        i <= r <= s.len(),
    decreases s.len() - i,
{
    if i < s.len() {
        let c = s[i];
        if c == 32 || c == 9 || c == 10 || c == 13 {
            return skip_ws(s, i + 1);
        }
    }
    i
}

/// Value of a hex digit byte, or -1.
pub open spec fn hex_val(c: u8) -> int {
    if 48 <= c && c <= 57 {
        c - 48
    } else if 97 <= c && c <= 102 {
        c - 87
    } else if 65 <= c && c <= 70 {
        c - 55
    } else {
        -1
    }
}

fn hex_val_e(c: u8) -> (r: i16)
    ensures
        r as int == hex_val(c),
{
    if 48 <= c && c <= 57 {
        c as i16 - 48
    } else if 97 <= c && c <= 102 {
        c as i16 - 87
    } else if 65 <= c && c <= 70 {
        c as i16 - 55
    } else {
        -1
    }
}

/// Prepend a byte to a string-parse result.
pub open spec fn cons_str(x: u8, r: Option<(Seq<u8>, int)>) -> Option<(Seq<u8>, int)> {
    match r {
        Some((v, e)) => Some((seq![x] + v, e)),
        None => None,
    }
}

/// Parse the body of a JSON string starting just after the opening quote:
/// the unescaped content and the position just after the closing quote.
/// Accepted escapes: `\" \\ \/ \n \t \r \b \f` and `\u00XX` for XX < 0x80.
pub open spec fn spec_string_body(s: Seq<u8>, i: int) -> Option<(Seq<u8>, int)>
    decreases s.len() - i
        when 0 <= i <= s.len()
{
    if i >= s.len() {
        None
    } else {
        let c = s[i];
        if c == 34 {
            Some((Seq::empty(), i + 1))
        } else if c == 92 {
            if i + 1 >= s.len() {
                None
            } else {
                let e = s[i + 1];
                if e == 34 || e == 92 || e == 47 {
                    cons_str(e, spec_string_body(s, i + 2))
                } else if e == 110 {
                    cons_str(10, spec_string_body(s, i + 2))
                } else if e == 116 {
                    cons_str(9, spec_string_body(s, i + 2))
                } else if e == 114 {
                    cons_str(13, spec_string_body(s, i + 2))
                } else if e == 98 {
                    cons_str(8, spec_string_body(s, i + 2))
                } else if e == 102 {
                    cons_str(12, spec_string_body(s, i + 2))
                } else if e == 117 {
                    if i + 6 <= s.len() && s[i + 2] == 48 && s[i + 3] == 48 && hex_val(s[i + 4])
                        >= 0 && hex_val(s[i + 5]) >= 0 && hex_val(s[i + 4]) * 16 + hex_val(
                        s[i + 5],
                    ) < 128 {
                        cons_str(
                            (hex_val(s[i + 4]) * 16 + hex_val(s[i + 5])) as u8,
                            spec_string_body(s, i + 6),
                        )
                    } else {
                        None
                    }
                } else {
                    None
                }
            }
        } else if c < 32 {
            None
        } else {
            cons_str(c, spec_string_body(s, i + 1))
        }
    }
}

pub proof fn lemma_string_body_bounds(s: Seq<u8>, i: int)
    requires
        0 <= i <= s.len(),
    ensures
        spec_string_body(s, i) matches Some((v, e)) ==> i < e <= s.len(),
    decreases s.len() - i,
{
    if i >= s.len() {
    } else {
        let c = s[i];
        if c == 34 {
        } else if c == 92 {
            if i + 1 >= s.len() {
            } else {
                let e = s[i + 1];
                if e == 34 || e == 92 || e == 47 || e == 110 || e == 116 || e == 114 || e == 98
                    || e == 102 {
                    lemma_string_body_bounds(s, i + 2);
                } else if e == 117 {
                    if i + 6 <= s.len() {
                        lemma_string_body_bounds(s, i + 6);
                    }
                }
            }
        } else if c < 32 {
        } else {
            lemma_string_body_bounds(s, i + 1);
        }
    }
}

/// Parse a JSON string body; mirrors [`spec_string_body`].
pub(crate) fn parse_string_body(s: &[u8], i: usize) -> (r: Option<(Vec<u8>, usize)>)
    requires
        i <= s.len(),
    ensures
        match r {
            Some((v, e)) => spec_string_body(s@, i as int) == Some((v@, e as int)) && i < e
                <= s.len(),
            None => spec_string_body(s@, i as int) is None,
        },
    decreases s.len() - i,
{
    if i >= s.len() {
        return None;
    }
    let c = s[i];
    if c == 34 {
        let v: Vec<u8> = Vec::new();
        proof {
            assert(v@ =~= Seq::<u8>::empty());
        }
        return Some((v, i + 1));
    }
    if c == 92 {
        if i + 1 >= s.len() {
            return None;
        }
        let e = s[i + 1];
        let step: Option<(u8, usize)> = if e == 34 || e == 92 || e == 47 {
            Some((e, i + 2))
        } else if e == 110 {
            Some((10, i + 2))
        } else if e == 116 {
            Some((9, i + 2))
        } else if e == 114 {
            Some((13, i + 2))
        } else if e == 98 {
            Some((8, i + 2))
        } else if e == 102 {
            Some((12, i + 2))
        } else if e == 117 {
            if s.len() - i >= 6 && s[i + 2] == 48 && s[i + 3] == 48 {
                let h = hex_val_e(s[i + 4]);
                let l = hex_val_e(s[i + 5]);
                if h >= 0 && l >= 0 && h * 16 + l < 128 {
                    Some(((h * 16 + l) as u8, i + 6))
                } else {
                    None
                }
            } else {
                None
            }
        } else {
            None
        };
        match step {
            None => {
                return None;
            },
            Some((x, nxt)) => {
                match parse_string_body(s, nxt) {
                    None => {
                        return None;
                    },
                    Some((mut v, end)) => {
                        let ghost v0 = v@;
                        v.insert(0, x);
                        proof {
                            assert(v@ =~= seq![x] + v0);
                        }
                        return Some((v, end));
                    },
                }
            },
        }
    }
    if c < 32 {
        return None;
    }
    match parse_string_body(s, i + 1) {
        None => None,
        Some((mut v, end)) => {
            let ghost v0 = v@;
            v.insert(0, c);
            proof {
                assert(v@ =~= seq![c] + v0);
            }
            Some((v, end))
        },
    }
}

/// End of a primitive token (number, `true`, `false`, `null`).
pub open spec fn spec_prim_end(s: Seq<u8>, i: int) -> int
    decreases s.len() - i
        when 0 <= i <= s.len()
{
    if i < s.len() && !is_ws(s[i]) && s[i] != 44 && s[i] != 125 && s[i] != 93 {
        spec_prim_end(s, i + 1)
    } else {
        i
    }
}

pub proof fn lemma_prim_end_bounds(s: Seq<u8>, i: int)
    requires
        0 <= i <= s.len(),
    ensures
        i <= spec_prim_end(s, i) <= s.len(),
    decreases s.len() - i,
{
    if i < s.len() && !is_ws(s[i]) && s[i] != 44 && s[i] != 125 && s[i] != 93 {
        lemma_prim_end_bounds(s, i + 1);
    }
}

fn prim_end(s: &[u8], i: usize) -> (r: usize)
    requires
        i <= s.len(),
    ensures
        r as int == spec_prim_end(s@, i as int),
        i <= r <= s.len(),
    decreases s.len() - i,
{
    if i < s.len() {
        let c = s[i];
        if !(c == 32 || c == 9 || c == 10 || c == 13) && c != 44 && c != 125 && c != 93 {
            return prim_end(s, i + 1);
        }
    }
    i
}

/// Position just after one balanced JSON value starting at `i`, given the
/// current brace/bracket depth; `None` on malformed input.
pub open spec fn spec_raw_end(s: Seq<u8>, i: int, depth: int) -> Option<int>
    decreases s.len() - i
        when 0 <= i <= s.len()
{
    if i >= s.len() {
        None
    } else {
        let c = s[i];
        if c == 34 {
            match spec_string_body(s, i + 1) {
                None => None,
                Some((v, e)) => if depth == 0 {
                    Some(e)
                } else {
                    if i < e <= s.len() {
                        spec_raw_end(s, e, depth)
                    } else {
                        None
                    }
                },
            }
        } else if c == 123 || c == 91 {
            spec_raw_end(s, i + 1, depth + 1)
        } else if c == 125 || c == 93 {
            if depth == 1 {
                Some(i + 1)
            } else if depth > 1 {
                spec_raw_end(s, i + 1, depth - 1)
            } else {
                None
            }
        } else if depth == 0 {
            let e = spec_prim_end(s, i);
            if i < e {
                Some(e)
            } else {
                None
            }
        } else {
            spec_raw_end(s, i + 1, depth)
        }
    }
}

pub proof fn lemma_raw_end_bounds(s: Seq<u8>, i: int, depth: int)
    requires
        0 <= i <= s.len(),
    ensures
        spec_raw_end(s, i, depth) matches Some(e) ==> i < e <= s.len(),
    decreases s.len() - i,
{
    if i >= s.len() {
    } else {
        let c = s[i];
        if c == 34 {
            lemma_string_body_bounds(s, i + 1);
            match spec_string_body(s, i + 1) {
                None => {},
                Some((v, e)) => {
                    if depth != 0 && i < e <= s.len() {
                        lemma_raw_end_bounds(s, e, depth);
                    }
                },
            }
        } else if c == 123 || c == 91 {
            lemma_raw_end_bounds(s, i + 1, depth + 1);
        } else if c == 125 || c == 93 {
            if depth > 1 {
                lemma_raw_end_bounds(s, i + 1, depth - 1);
            }
        } else if depth == 0 {
            lemma_prim_end_bounds(s, i);
        } else {
            lemma_raw_end_bounds(s, i + 1, depth);
        }
    }
}

/// Skip one balanced JSON value; mirrors [`spec_raw_end`].
pub(crate) fn raw_end(s: &[u8], i: usize, depth: usize) -> (r: Option<usize>)
    requires
        i <= s.len(),
        depth <= i,
    ensures
        match r {
            Some(e) => spec_raw_end(s@, i as int, depth as int) == Some(e as int) && i < e
                <= s.len(),
            None => spec_raw_end(s@, i as int, depth as int) is None,
        },
    decreases s.len() - i,
{
    if i >= s.len() {
        return None;
    }
    let c = s[i];
    if c == 34 {
        match parse_string_body(s, i + 1) {
            None => None,
            Some((_v, e)) => {
                if depth == 0 {
                    Some(e)
                } else {
                    raw_end(s, e, depth)
                }
            },
        }
    } else if c == 123 || c == 91 {
        raw_end(s, i + 1, depth + 1)
    } else if c == 125 || c == 93 {
        if depth == 1 {
            Some(i + 1)
        } else if depth > 1 {
            raw_end(s, i + 1, depth - 1)
        } else {
            None
        }
    } else if depth == 0 {
        let e = prim_end(s, i);
        if i < e {
            Some(e)
        } else {
            None
        }
    } else {
        raw_end(s, i + 1, depth)
    }
}

/// A parsed member value: a string (unescaped) or any other balanced JSON
/// value kept verbatim.
pub enum SpecVal {
    S(Seq<u8>),
    Raw(Seq<u8>),
}

/// Executable counterpart of [`SpecVal`].
pub enum JVal {
    S(Vec<u8>),
    Raw(Vec<u8>),
}

impl View for JVal {
    type V = SpecVal;

    open spec fn view(&self) -> SpecVal {
        match self {
            JVal::S(v) => SpecVal::S(v@),
            JVal::Raw(v) => SpecVal::Raw(v@),
        }
    }
}

/// One object member.
pub struct Member {
    pub key: Vec<u8>,
    pub val: JVal,
}

impl View for Member {
    type V = (Seq<u8>, SpecVal);

    open spec fn view(&self) -> (Seq<u8>, SpecVal) {
        (self.key@, self.val@)
    }
}

/// View of a member list.
pub open spec fn members_view(ms: Seq<Member>) -> Seq<(Seq<u8>, SpecVal)> {
    ms.map_values(|m: Member| m@)
}

/// Parse one `"key": value` pair starting at `i`; the returned position is
/// just after the value.
pub open spec fn spec_member(s: Seq<u8>, i: int) -> Option<((Seq<u8>, SpecVal), int)> {
    let k0 = spec_skip_ws(s, i);
    if 0 <= k0 && k0 < s.len() && s[k0] == 34 {
        match spec_string_body(s, k0 + 1) {
            None => None,
            Some((key, ke)) => {
                let c0 = spec_skip_ws(s, ke);
                if 0 <= c0 && c0 < s.len() && s[c0] == 58 {
                    let v0 = spec_skip_ws(s, c0 + 1);
                    if 0 <= v0 && v0 < s.len() && s[v0] == 34 {
                        match spec_string_body(s, v0 + 1) {
                            None => None,
                            Some((val, ve)) => Some(((key, SpecVal::S(val)), ve)),
                        }
                    } else {
                        match spec_raw_end(s, v0, 0) {
                            None => None,
                            Some(re) => if 0 <= v0 < re <= s.len() {
                                Some(((key, SpecVal::Raw(s.subrange(v0, re))), re))
                            } else {
                                None
                            },
                        }
                    }
                } else {
                    None
                }
            },
        }
    } else {
        None
    }
}

pub proof fn lemma_member_bounds(s: Seq<u8>, i: int)
    requires
        0 <= i <= s.len(),
    ensures
        spec_member(s, i) matches Some((m, e)) ==> i < e <= s.len(),
{
    lemma_skip_ws_bounds(s, i);
    let k0 = spec_skip_ws(s, i);
    if 0 <= k0 && k0 < s.len() && s[k0] == 34 {
        lemma_string_body_bounds(s, k0 + 1);
        match spec_string_body(s, k0 + 1) {
            None => {},
            Some((key, ke)) => {
                lemma_skip_ws_bounds(s, ke);
                let c0 = spec_skip_ws(s, ke);
                if 0 <= c0 && c0 < s.len() && s[c0] == 58 {
                    lemma_skip_ws_bounds(s, c0 + 1);
                    let v0 = spec_skip_ws(s, c0 + 1);
                    if 0 <= v0 && v0 < s.len() && s[v0] == 34 {
                        lemma_string_body_bounds(s, v0 + 1);
                    } else {
                        lemma_raw_end_bounds(s, v0, 0);
                    }
                }
            },
        }
    }
}

/// Parse one member; mirrors [`spec_member`].
pub(crate) fn parse_member(s: &[u8], i: usize) -> (r: Option<(Member, usize)>)
    requires
        i <= s.len(),
    ensures
        match r {
            Some((m, e)) => spec_member(s@, i as int) == Some((m@, e as int)) && i < e <= s.len(),
            None => spec_member(s@, i as int) is None,
        },
{
    let k0 = skip_ws(s, i);
    if !(k0 < s.len() && s[k0] == 34) {
        return None;
    }
    let (key, ke) = match parse_string_body(s, k0 + 1) {
        None => {
            return None;
        },
        Some(p) => p,
    };
    let c0 = skip_ws(s, ke);
    if !(c0 < s.len() && s[c0] == 58) {
        return None;
    }
    let v0 = skip_ws(s, c0 + 1);
    if v0 < s.len() && s[v0] == 34 {
        match parse_string_body(s, v0 + 1) {
            None => None,
            Some((val, ve)) => Some((Member { key, val: JVal::S(val) }, ve)),
        }
    } else {
        match raw_end(s, v0, 0) {
            None => None,
            Some(re) => {
                let mut raw: Vec<u8> = Vec::new();
                let mut j: usize = v0;
                while j < re
                    invariant
                        v0 <= j <= re <= s.len(),
                        raw@.len() == j - v0,
                        forall|t: int| 0 <= t < raw@.len() ==> raw@[t] == s@[v0 + t],
                    decreases re - j,
                {
                    raw.push(s[j]);
                    j += 1;
                }
                proof {
                    assert(raw@ =~= s@.subrange(v0 as int, re as int));
                }
                Some((Member { key, val: JVal::Raw(raw) }, re))
            },
        }
    }
}

/// Parse the members of an object from just after `{` to just after `}`.
pub open spec fn spec_members(s: Seq<u8>, i: int) -> Option<(Seq<(Seq<u8>, SpecVal)>, int)>
    decreases s.len() - i
        when 0 <= i <= s.len()
{
    match spec_member(s, i) {
        None => None,
        Some((m, e)) => {
            if i < e <= s.len() {
                let t = spec_skip_ws(s, e);
                if 0 <= t && t < s.len() && s[t] == 44 {
                    if i < t + 1 <= s.len() {
                        match spec_members(s, t + 1) {
                            None => None,
                            Some((rest, re)) => Some((seq![m] + rest, re)),
                        }
                    } else {
                        None
                    }
                } else if 0 <= t && t < s.len() && s[t] == 125 {
                    Some((seq![m], t + 1))
                } else {
                    None
                }
            } else {
                None
            }
        },
    }
}

/// Parse members; mirrors [`spec_members`].
pub(crate) fn parse_members(s: &[u8], i: usize) -> (r: Option<(Vec<Member>, usize)>)
    requires
        i <= s.len(),
    ensures
        match r {
            Some((ms, e)) => spec_members(s@, i as int) == Some((members_view(ms@), e as int)) && e
                <= s.len(),
            None => spec_members(s@, i as int) is None,
        },
    decreases s.len() - i,
{
    proof {
        lemma_member_bounds(s@, i as int);
    }
    let (m, e) = match parse_member(s, i) {
        None => {
            return None;
        },
        Some(p) => p,
    };
    let t = skip_ws(s, e);
    if t < s.len() && s[t] == 44 {
        match parse_members(s, t + 1) {
            None => None,
            Some((mut rest, re)) => {
                let ghost rest0 = rest@;
                rest.insert(0, m);
                proof {
                    assert(rest@ =~= seq![m] + rest0);
                    assert(members_view(rest@) =~= seq![m@] + members_view(rest0));
                }
                Some((rest, re))
            },
        }
    } else if t < s.len() && s[t] == 125 {
        let mut ms: Vec<Member> = Vec::new();
        ms.push(m);
        proof {
            assert(ms@ =~= seq![m]);
            assert(members_view(ms@) =~= seq![m@]);
        }
        Some((ms, t + 1))
    } else {
        None
    }
}

/// Parse a whole document: one object, nothing but whitespace around it.
pub open spec fn spec_object(s: Seq<u8>) -> Option<Seq<(Seq<u8>, SpecVal)>> {
    let j = spec_skip_ws(s, 0);
    if 0 <= j && j < s.len() && s[j] == 123 {
        let k = spec_skip_ws(s, j + 1);
        if 0 <= k && k < s.len() && s[k] == 125 {
            if k + 1 <= s.len() && spec_skip_ws(s, k + 1) == s.len() {
                Some(Seq::empty())
            } else {
                None
            }
        } else {
            match spec_members(s, j + 1) {
                None => None,
                Some((ms, e)) => if 0 <= e <= s.len() && spec_skip_ws(s, e) == s.len() {
                    Some(ms)
                } else {
                    None
                },
            }
        }
    } else {
        None
    }
}

/// Parse a whole document; mirrors [`spec_object`].
pub(crate) fn parse_object(s: &[u8]) -> (r: Option<Vec<Member>>)
    ensures
        match r {
            Some(ms) => spec_object(s@) == Some(members_view(ms@)),
            None => spec_object(s@) is None,
        },
{
    let j = skip_ws(s, 0);
    if !(j < s.len() && s[j] == 123) {
        return None;
    }
    let k = skip_ws(s, j + 1);
    if k < s.len() && s[k] == 125 {
        if skip_ws(s, k + 1) == s.len() {
            let ms: Vec<Member> = Vec::new();
            proof {
                assert(members_view(ms@) =~= Seq::<(Seq<u8>, SpecVal)>::empty());
            }
            return Some(ms);
        } else {
            return None;
        }
    }
    match parse_members(s, j + 1) {
        None => None,
        Some((ms, e)) => {
            if skip_ws(s, e) == s.len() {
                Some(ms)
            } else {
                None
            }
        },
    }
}

/// First member with the given key.
pub open spec fn spec_find(ms: Seq<(Seq<u8>, SpecVal)>, key: Seq<u8>) -> Option<SpecVal>
    decreases ms.len(),
{
    if ms.len() == 0 {
        None
    } else if ms[0].0 == key {
        Some(ms[0].1)
    } else {
        spec_find(ms.skip(1), key)
    }
}

/// Byte-string equality.
pub(crate) fn bytes_eq(a: &[u8], b: &[u8]) -> (r: bool)
    ensures
        r == (a@ == b@),
{
    if a.len() != b.len() {
        proof {
            assert(a@ != b@);
        }
        return false;
    }
    let mut i: usize = 0;
    while i < a.len()
        invariant
            i <= a.len(),
            a@.len() == b@.len(),
            forall|j: int| 0 <= j < i ==> a@[j] == b@[j],
        decreases a.len() - i,
    {
        if a[i] != b[i] {
            return false;
        }
        i += 1;
    }
    proof {
        assert(a@ =~= b@);
    }
    true
}

/// Look a key up in a parsed member list; mirrors [`spec_find`].
pub(crate) fn find_member<'a>(ms: &'a Vec<Member>, key: &[u8]) -> (r: Option<&'a JVal>)
    ensures
        match r {
            Some(v) => spec_find(members_view(ms@), key@) == Some(v@),
            None => spec_find(members_view(ms@), key@) is None,
        },
{
    proof {
        assert(ms@.skip(0) =~= ms@);
    }
    let mut i: usize = 0;
    while i < ms.len()
        invariant
            i <= ms@.len(),
            spec_find(members_view(ms@), key@) == spec_find(
                members_view(ms@.skip(i as int)),
                key@,
            ),
        decreases ms@.len() - i,
    {
        proof {
            assert(members_view(ms@.skip(i as int)).len() == ms@.len() - i);
            assert(members_view(ms@.skip(i as int))[0] == ms@[i as int]@);
            assert(members_view(ms@.skip(i as int)).skip(1) =~= members_view(
                ms@.skip(i + 1 as int),
            ));
        }
        if bytes_eq(ms[i].key.as_slice(), key) {
            return Some(&ms[i].val);
        }
        i += 1;
    }
    proof {
        assert(members_view(ms@.skip(ms@.len() as int)).len() == 0);
    }
    None
}

/// The string content of a member value, if it is a string.
pub open spec fn spec_as_string(v: Option<SpecVal>) -> Option<Seq<u8>> {
    match v {
        Some(SpecVal::S(b)) => Some(b),
        _ => None,
    }
}

/// Decimal value of a digit string.
pub open spec fn digits_val(b: Seq<u8>) -> nat
    decreases b.len(),
{
    if b.len() == 0 {
        0
    } else {
        (digits_val(b.drop_last()) * 10 + (b.last() - 48)) as nat
    }
}

/// A nonempty run of decimal digits.
pub open spec fn all_digits(b: Seq<u8>) -> bool {
    b.len() > 0 && forall|i: int| 0 <= i < b.len() ==> 48 <= #[trigger] b[i] <= 57
}

/// Parse an unsigned decimal number.
pub open spec fn spec_parse_u64(b: Seq<u8>) -> Option<u64> {
    if all_digits(b) && digits_val(b) <= u64::MAX {
        Some(digits_val(b) as u64)
    } else {
        None
    }
}

/// A longer digit string denotes no smaller a value.
proof fn lemma_digits_val_prefix(b: Seq<u8>, i: int)
    requires
        0 <= i <= b.len(),
        all_digits(b),
    ensures
        digits_val(b.take(i)) <= digits_val(b),
    decreases b.len() - i,
{
    if i < b.len() {
        lemma_digits_val_prefix(b, i + 1);
        assert(b.take(i + 1).drop_last() =~= b.take(i));
        assert(b.take(i + 1).last() == b[i]);
        assert(digits_val(b.take(i + 1)) == digits_val(b.take(i)) * 10 + (b[i] - 48));
    } else {
        assert(b.take(i) =~= b);
    }
}

/// Parse an unsigned decimal number; mirrors [`spec_parse_u64`].
pub(crate) fn parse_u64(b: &[u8]) -> (r: Option<u64>)
    ensures
        r == spec_parse_u64(b@),
{
    if b.len() == 0 {
        return None;
    }
    let mut acc: u64 = 0;
    let mut i: usize = 0;
    while i < b.len()
        invariant
            0 < b@.len(),
            i <= b.len(),
            forall|j: int| 0 <= j < i ==> 48 <= #[trigger] b@[j] <= 57,
            acc == digits_val(b@.take(i as int)),
        decreases b.len() - i,
    {
        let c = b[i];
        if !(48 <= c && c <= 57) {
            proof {
                assert(!all_digits(b@));
            }
            return None;
        }
        let d: u64 = (c - 48) as u64;
        proof {
            assert(b@.take(i + 1 as int).drop_last() =~= b@.take(i as int));
            assert(b@.take(i + 1 as int).last() == b@[i as int]);
        }
        if acc > (u64::MAX - d) / 10 {
            proof {
                let ghost full = b@;
                assert(digits_val(full.take(i + 1 as int)) == acc * 10 + d);
                assert(acc * 10 + d > u64::MAX) by {
                    assert(acc >= (u64::MAX - d) / 10 + 1);
                };
                if all_digits(full) {
                    lemma_digits_val_prefix(full, i + 1 as int);
                    assert(digits_val(full) > u64::MAX);
                }
            }
            return None;
        }
        acc = acc * 10 + d;
        i += 1;
    }
    proof {
        assert(b@.take(b@.len() as int) =~= b@);
        assert(all_digits(b@));
    }
    Some(acc)
}

} // verus!
