//! Scanning one chapter's text for annotation regions.
//!
//! An annotation region is written `{{#note <key>}}payload{{#note end}}`.
//! The key may be empty, and may hold several `|`-separated segments; the
//! payload may span lines but may not contain `{`, and the key may not
//! contain `}`. Scanning yields one `Extract` per region (plus one synthetic
//! heading extract the first time each distinct key is seen in a chapter),
//! and a cleaned copy of the text with each region replaced by its trimmed
//! payload.

use vstd::prelude::*;

use crate::text::{
    find_from, lemma_scan_to, scan_to, to_chars, trim_in, trim_spec,
};

verus! {

/// One extracted record: a reversed hierarchical key path and a payload.
#[derive(Clone, PartialEq, Eq, Debug)]
pub struct Extract {
    pub key: Vec<String>,
    pub val: String,
}

/// The mathematical model of an `Extract`.
pub ghost struct ExtractV {
    pub key: Seq<Seq<char>>,
    pub val: Seq<char>,
}

impl DeepView for Extract {
    type V = ExtractV;

    open spec fn deep_view(&self) -> ExtractV {
        ExtractV { key: self.key.deep_view(), val: self.val@ }
    }
}

/// The characters that open an annotation region.
pub open spec fn start_marker() -> Seq<char> {
    seq!['{', '{', '#', 'n', 'o', 't', 'e']
}

/// The characters that close an annotation region.
pub open spec fn end_marker() -> Seq<char> {
    seq!['{', '{', '#', 'n', 'o', 't', 'e', ' ', 'e', 'n', 'd', '}', '}']
}

/// The prefix of the synthetic heading emitted for each distinct key.
pub open spec fn heading_prefix() -> Seq<char> {
    seq!['#', '#', '#', ' ']
}

/// Where the raw key of a region starting at `i` begins: after the start
/// marker and one optional space.
pub open spec fn key_start(s: Seq<char>, i: int) -> int {
    if i + 7 < s.len() && s[i + 7] == ' ' {
        i + 8
    } else {
        i + 7
    }
}

/// Where the raw key ends: at the first `}` at or after `key_start`.
pub open spec fn key_end(s: Seq<char>, i: int) -> int {
    scan_to(s, key_start(s, i), '}')
}

/// Where the raw payload begins: just past the `}}` that closes the key.
pub open spec fn val_start(s: Seq<char>, i: int) -> int {
    key_end(s, i) + 2
}

/// Where the raw payload ends: at the first `{` at or after `val_start`,
/// which must open the end marker.
pub open spec fn val_end(s: Seq<char>, i: int) -> int {
    scan_to(s, val_start(s, i), '{')
}

/// The index just past the end marker of a region starting at `i`.
pub open spec fn region_end(s: Seq<char>, i: int) -> int {
    val_end(s, i) + 13
}

/// Whether a full annotation region starts at index `i` of `s`.
pub open spec fn match_at(s: Seq<char>, i: int) -> bool {
    &&& 0 <= i
    &&& i + 7 <= s.len()
    &&& s.subrange(i, i + 7) == start_marker()
    &&& key_end(s, i) + 1 < s.len()
    &&& s[key_end(s, i) + 1] == '}'
    &&& region_end(s, i) <= s.len()
    &&& s.subrange(val_end(s, i), region_end(s, i)) == end_marker()
}

/// The raw (untrimmed) key text of the region starting at `i`.
pub open spec fn raw_key(s: Seq<char>, i: int) -> Seq<char> {
    s.subrange(key_start(s, i), key_end(s, i))
}

/// The raw (untrimmed) payload text of the region starting at `i`.
pub open spec fn raw_val(s: Seq<char>, i: int) -> Seq<char> {
    s.subrange(val_start(s, i), val_end(s, i))
}

/// Bounds on the pieces of a region starting at `i`.
pub proof fn lemma_region_bounds(s: Seq<char>, i: int)
    requires
        match_at(s, i),
    ensures
        i + 7 <= key_start(s, i) <= key_end(s, i) < s.len(),
        s[key_end(s, i)] == '}',
        val_start(s, i) <= val_end(s, i) < s.len(),
        i < region_end(s, i) <= s.len(),
{
    assert(key_start(s, i) <= i + 8);
    lemma_scan_to(s, key_start(s, i), '}');
    lemma_scan_to(s, val_start(s, i), '{');
}

/// The pieces of the key expression `s[i..]`: split on `|`, each piece
/// trimmed, empty pieces dropped, in their written order.
pub open spec fn split_trim_from(s: Seq<char>, i: int) -> Seq<Seq<char>>
    decreases s.len() - i,
{
    if i < 0 || i > s.len() {
        Seq::empty()
    } else {
        proof {
            lemma_scan_to(s, i, '|');
        }
        let p = scan_to(s, i, '|');
        let piece = trim_spec(s.subrange(i, p));
        let rest = if p >= s.len() {
            Seq::<Seq<char>>::empty()
        } else {
            split_trim_from(s, p + 1)
        };
        if piece.len() == 0 {
            rest
        } else {
            seq![piece] + rest
        }
    }
}

/// The key path of a trimmed key expression: its pieces in reverse, so the
/// innermost (first-written) segment is consumed first when grouping.
pub open spec fn key_path_of(kraw: Seq<char>) -> Seq<Seq<char>> {
    split_trim_from(kraw, 0).reverse()
}

/// The sequence of extracts produced by scanning `s[i..]` for a chapter
/// named `name`, where `seen` holds the trimmed key expressions already
/// encountered. Each region contributes its trimmed payload; a region whose
/// key expression was not seen before also contributes, just ahead of it, a
/// heading extract `"### " + name` under the same key path.
pub open spec fn extracts_from(
    s: Seq<char>,
    name: Seq<char>,
    i: int,
    seen: Set<Seq<char>>,
) -> Seq<ExtractV>
    decreases s.len() - i,
{
    if i < 0 || i >= s.len() {
        Seq::empty()
    } else if match_at(s, i) {
        proof {
            lemma_region_bounds(s, i);
        }
        let kraw = trim_spec(raw_key(s, i));
        let path = key_path_of(kraw);
        let payload = ExtractV { key: path, val: trim_spec(raw_val(s, i)) };
        if seen.contains(kraw) {
            seq![payload] + extracts_from(s, name, region_end(s, i), seen)
        } else {
            seq![ExtractV { key: path, val: heading_prefix() + name }, payload]
                + extracts_from(s, name, region_end(s, i), seen.insert(kraw))
        }
    } else {
        extracts_from(s, name, i + 1, seen)
    }
}

/// The cleaned text of `s[i..]`: every region replaced by its trimmed
/// payload, all other characters kept.
pub open spec fn cleaned_from(s: Seq<char>, i: int) -> Seq<char>
    decreases s.len() - i,
{
    if i < 0 || i >= s.len() {
        Seq::empty()
    } else if match_at(s, i) {
        proof {
            lemma_region_bounds(s, i);
        }
        trim_spec(raw_val(s, i)) + cleaned_from(s, region_end(s, i))
    } else {
        seq![s[i]] + cleaned_from(s, i + 1)
    }
}

/// The number of annotation regions in `s[i..]`.
pub open spec fn region_count(s: Seq<char>, i: int) -> nat
    decreases s.len() - i,
{
    if i < 0 || i >= s.len() {
        0
    } else if match_at(s, i) {
        proof {
            lemma_region_bounds(s, i);
        }
        1 + region_count(s, region_end(s, i))
    } else {
        region_count(s, i + 1)
    }
}

/// The number of regions in `s[i..]` whose trimmed key expression does not
/// occur in `seen` nor in any earlier region of the scan: the number of
/// distinct new key expressions.
pub open spec fn new_key_count(s: Seq<char>, i: int, seen: Set<Seq<char>>) -> nat
    decreases s.len() - i,
{
    if i < 0 || i >= s.len() {
        0
    } else if match_at(s, i) {
        proof {
            lemma_region_bounds(s, i);
        }
        let kraw = trim_spec(raw_key(s, i));
        if seen.contains(kraw) {
            new_key_count(s, region_end(s, i), seen)
        } else {
            1 + new_key_count(s, region_end(s, i), seen.insert(kraw))
        }
    } else {
        new_key_count(s, i + 1, seen)
    }
}

/// Headings are deduplicated per key: a scan yields exactly one payload
/// extract per region plus exactly one heading extract per distinct key
/// expression, however often a key recurs.
pub proof fn lemma_heading_dedup(s: Seq<char>, name: Seq<char>, i: int, seen: Set<Seq<char>>)
    ensures
        extracts_from(s, name, i, seen).len() == region_count(s, i) + new_key_count(s, i, seen),
    decreases s.len() - i,
{
    if 0 <= i < s.len() {
        if match_at(s, i) {
            lemma_region_bounds(s, i);
            let kraw = trim_spec(raw_key(s, i));
            if seen.contains(kraw) {
                lemma_heading_dedup(s, name, region_end(s, i), seen);
            } else {
                lemma_heading_dedup(s, name, region_end(s, i), seen.insert(kraw));
            }
        } else {
            lemma_heading_dedup(s, name, i + 1, seen);
        }
    }
}

/// A text without the start marker has no regions: scanning extracts
/// nothing and cleaning gives the text back unchanged.
pub proof fn lemma_no_marker_roundtrip(s: Seq<char>, name: Seq<char>)
    requires
        forall|j: int|
            0 <= j && j + 7 <= s.len() ==> #[trigger] s.subrange(j, j + 7) != start_marker(),
    ensures
        extracts_from(s, name, 0, Set::empty()) == Seq::<ExtractV>::empty(),
        cleaned_from(s, 0) == s,
{
    lemma_no_match_suffix(s, name, Set::empty(), 0);
    assert(s.subrange(0, s.len() as int) =~= s);
}

/// If a scan finds no extracts at all, cleaning changes nothing: the
/// cleaned suffix equals the original suffix.
pub proof fn lemma_empty_extracts_clean(s: Seq<char>, name: Seq<char>, i: int)
    requires
        0 <= i <= s.len(),
        extracts_from(s, name, i, Set::empty()) == Seq::<ExtractV>::empty(),
    ensures
        cleaned_from(s, i) == s.subrange(i, s.len() as int),
    decreases s.len() - i,
{
    if i >= s.len() {
        assert(s.subrange(i, s.len() as int) =~= Seq::<char>::empty());
    } else if match_at(s, i) {
        lemma_region_bounds(s, i);
        assert(extracts_from(s, name, i, Set::empty()).len() > 0);
    } else {
        lemma_empty_extracts_clean(s, name, i + 1);
        assert(seq![s[i]] + s.subrange(i + 1, s.len() as int) =~= s.subrange(
            i,
            s.len() as int,
        ));
    }
}

proof fn lemma_no_match_suffix(s: Seq<char>, name: Seq<char>, seen: Set<Seq<char>>, i: int)
    requires
        0 <= i <= s.len(),
        forall|j: int|
            0 <= j && j + 7 <= s.len() ==> #[trigger] s.subrange(j, j + 7) != start_marker(),
    ensures
        extracts_from(s, name, i, seen) == Seq::<ExtractV>::empty(),
        cleaned_from(s, i) == s.subrange(i, s.len() as int),
    decreases s.len() - i,
{
    if i >= s.len() {
        assert(s.subrange(i, s.len() as int) =~= Seq::<char>::empty());
    } else {
        assert(!match_at(s, i));
        lemma_no_match_suffix(s, name, seen, i + 1);
        assert(seq![s[i]] + s.subrange(i + 1, s.len() as int) =~= s.subrange(
            i,
            s.len() as int,
        ));
    }
}

/// The index bounds of one region found in a scan.
pub struct Region {
    pub ks: usize,
    pub ke: usize,
    pub vs: usize,
    pub ve: usize,
    pub end: usize,
}

/// Tests whether an annotation region starts at index `i`, returning its
/// piece boundaries if so.
pub fn try_region(chars: &Vec<char>, i: usize) -> (r: Option<Region>)
    requires
        i < chars@.len(),
    ensures
        match r {
            Some(reg) => {
                &&& match_at(chars@, i as int)
                &&& reg.ks == key_start(chars@, i as int)
                &&& reg.ke == key_end(chars@, i as int)
                &&& reg.vs == val_start(chars@, i as int)
                &&& reg.ve == val_end(chars@, i as int)
                &&& reg.end == region_end(chars@, i as int)
                &&& i < reg.end <= chars@.len()
                &&& reg.ks <= reg.ke <= chars@.len()
                &&& reg.vs <= reg.ve <= chars@.len()
            },
            None => !match_at(chars@, i as int),
        },
{
    let ghost s = chars@;
    let n = chars.len();
    if n - i < 7 {
        return None;
    }
    if chars[i] != '{' || chars[i + 1] != '{' || chars[i + 2] != '#' || chars[i + 3] != 'n'
        || chars[i + 4] != 'o' || chars[i + 5] != 't' || chars[i + 6] != 'e' {
        proof {
            assert(s.subrange(i as int, i as int + 7) != start_marker()) by {
                if s.subrange(i as int, i as int + 7) == start_marker() {
                    assert(forall|k: int|
                        0 <= k < 7 ==> #[trigger] s.subrange(i as int, i as int + 7)[k] == s[i + k]);
                }
            }
        }
        return None;
    }
    proof {
        assert(s.subrange(i as int, i as int + 7) =~= start_marker());
    }
    let ks = if i + 7 < n && chars[i + 7] == ' ' {
        i + 8
    } else {
        i + 7
    };
    assert(ks == key_start(s, i as int));
    let ke = find_from(chars, ks, '}');
    proof {
        lemma_scan_to(s, ks as int, '}');
    }
    if n - ke < 2 {
        return None;
    }
    if chars[ke + 1] != '}' {
        return None;
    }
    let vs = ke + 2;
    let ve = find_from(chars, vs, '{');
    proof {
        lemma_scan_to(s, vs as int, '{');
    }
    if n - ve < 13 {
        return None;
    }
    if chars[ve] != '{' || chars[ve + 1] != '{' || chars[ve + 2] != '#' || chars[ve + 3] != 'n'
        || chars[ve + 4] != 'o' || chars[ve + 5] != 't' || chars[ve + 6] != 'e'
        || chars[ve + 7] != ' ' || chars[ve + 8] != 'e' || chars[ve + 9] != 'n'
        || chars[ve + 10] != 'd' || chars[ve + 11] != '}' || chars[ve + 12] != '}' {
        proof {
            assert(s.subrange(ve as int, ve as int + 13) != end_marker()) by {
                if s.subrange(ve as int, ve as int + 13) == end_marker() {
                    assert(forall|k: int|
                        0 <= k < 13 ==> #[trigger] s.subrange(ve as int, ve as int + 13)[k] == s[ve + k]);
                }
            }
        }
        return None;
    }
    proof {
        assert(s.subrange(ve as int, ve as int + 13) =~= end_marker());
    }
    Some(Region { ks, ke, vs, ve, end: ve + 13 })
}

/// Splits a key expression on `|`, trimming each piece and dropping the
/// empty ones, in their written order.
pub fn split_key(s: &str) -> (r: Vec<String>)
    ensures
        r.deep_view() == split_trim_from(s@, 0),
{
    let chars = to_chars(s);
    let n = chars.len();
    let mut out: Vec<String> = Vec::new();
    let mut i: usize = 0;
    loop
        invariant_except_break
            i <= n,
            n == s@.len(),
            chars@ == s@,
            out.deep_view() + split_trim_from(s@, i as int) == split_trim_from(s@, 0),
        ensures
            out.deep_view() == split_trim_from(s@, 0),
        decreases n - i,
    {
        let p = find_from(&chars, i, '|');
        proof {
            lemma_scan_to(s@, i as int, '|');
        }
        let piece = trim_in(s, &chars, i, p);
        let ghost pv = piece@;
        let ghost prev = out.deep_view();
        if !piece.as_str().is_empty() {
            out.push(piece);
            proof {
                assert(out.deep_view() =~= prev.push(pv));
            }
        }
        proof {
            let rest = if p >= n {
                Seq::<Seq<char>>::empty()
            } else {
                split_trim_from(s@, p + 1)
            };
            assert(split_trim_from(s@, i as int) == if pv.len() == 0 {
                rest
            } else {
                seq![pv] + rest
            });
            if pv.len() > 0 {
                assert(prev.push(pv) + rest =~= prev + (seq![pv] + rest));
            }
        }
        if p == n {
            proof {
                let rest = Seq::<Seq<char>>::empty();
                if pv.len() == 0 {
                    assert(prev + rest =~= prev);
                } else {
                    assert(prev.push(pv) =~= prev + (seq![pv] + rest));
                }
                assert(out.deep_view() == split_trim_from(s@, 0));
            }
            break;
        }
        i = p + 1;
    }
    out
}

/// Reverses a list of strings.
pub fn reverse_strings(v: Vec<String>) -> (r: Vec<String>)
    ensures
        r.deep_view() == v.deep_view().reverse(),
        r@.len() == v@.len(),
{
    let mut r: Vec<String> = Vec::new();
    let mut j = v.len();
    while j > 0
        invariant
            j <= v@.len(),
            r@.len() == v@.len() - j,
            forall|m: int| 0 <= m < r@.len() ==> r@[m] == v@[v@.len() - 1 - m],
        decreases j,
    {
        j = j - 1;
        let piece = v[j].clone();
        r.push(piece);
    }
    proof {
        assert(r.deep_view() =~= v.deep_view().reverse());
    }
    r
}

/// Copies a list of strings.
pub fn clone_strings(v: &Vec<String>) -> (r: Vec<String>)
    ensures
        r.deep_view() == v.deep_view(),
        r@.len() == v@.len(),
{
    let mut r: Vec<String> = Vec::new();
    let mut m: usize = 0;
    while m < v.len()
        invariant
            m <= v@.len(),
            r@.len() == m,
            forall|k: int| 0 <= k < m ==> r@[k] == v@[k],
        decreases v@.len() - m,
    {
        r.push(v[m].clone());
        m = m + 1;
    }
    proof {
        assert(r.deep_view() =~= v.deep_view());
    }
    r
}

/// Whether some element of `v` holds the characters `x`.
pub fn contains_str(v: &Vec<String>, x: &str) -> (r: bool)
    ensures
        r == exists|m: int| 0 <= m < v@.len() && v@[m]@ == x@,
{
    let mut m: usize = 0;
    while m < v.len()
        invariant
            m <= v@.len(),
            forall|k: int| 0 <= k < m ==> v@[k]@ != x@,
        decreases v@.len() - m,
    {
        if crate::text::str_eq(v[m].as_str(), x) {
            return true;
        }
        m = m + 1;
    }
    false
}

/// Scans a chapter's text, returning every extract in source order: for each
/// region, a heading extract `"### " + name` the first time its key
/// expression occurs, then the region's trimmed payload.
pub fn scan_text(content: &str, name: &str) -> (res: Vec<Extract>)
    ensures
        res.deep_view() == extracts_from(content@, name@, 0, Set::empty()),
{
    let ghost s = content@;
    let chars = to_chars(content);
    let n = chars.len();
    let mut res: Vec<Extract> = Vec::new();
    let mut seen_v: Vec<String> = Vec::new();
    let ghost mut seen: Set<Seq<char>> = Set::empty();
    let mut i: usize = 0;
    while i < n
        invariant
            i <= n,
            n == s.len(),
            chars@ == s,
            s == content@,
            res.deep_view() + extracts_from(s, name@, i as int, seen) == extracts_from(
                s,
                name@,
                0,
                Set::empty(),
            ),
            forall|x: Seq<char>| #[trigger]
                seen.contains(x) <==> exists|m: int|
                    0 <= m < seen_v@.len() && #[trigger] seen_v@[m]@ == x,
        decreases n - i,
    {
        match try_region(&chars, i) {
            None => {
                i = i + 1;
            },
            Some(reg) => {
                let ghost gi = i as int;
                let ghost old_sv = seen_v@;
                let kraw = trim_in(content, &chars, reg.ks, reg.ke);
                let ghost krawv = kraw@;
                proof {
                    assert(krawv == trim_spec(raw_key(s, gi)));
                }
                let pieces = split_key(kraw.as_str());
                let keys = reverse_strings(pieces);
                proof {
                    assert(keys.deep_view() == key_path_of(krawv));
                }
                let vtext = trim_in(content, &chars, reg.vs, reg.ve);
                let ghost payload = ExtractV { key: key_path_of(krawv), val: vtext@ };
                let ghost prev = res.deep_view();
                let ghost seen_before = seen;
                let is_new = !contains_str(&seen_v, kraw.as_str());
                proof {
                    assert(is_new == !seen.contains(krawv));
                }
                if is_new {
                    let mut h = String::from_str("### ");
                    h.append(name);
                    proof {
                        reveal_strlit("### ");
                        assert(h@ =~= heading_prefix() + name@);
                    }
                    let hkeys = clone_strings(&keys);
                    let ghost hv = ExtractV { key: key_path_of(krawv), val: h@ };
                    res.push(Extract { key: hkeys, val: h });
                    proof {
                        assert(res.deep_view() =~= prev.push(hv));
                    }
                    proof {
                        assert(forall|x: Seq<char>| #[trigger]
                            seen_before.contains(x) <==> exists|m: int|
                                0 <= m < old_sv.len() && #[trigger] old_sv[m]@ == x);
                    }
                    seen_v.push(kraw);
                    proof {
                        seen = seen.insert(krawv);
                        assert(seen_v@ == old_sv.push(seen_v@[old_sv.len() as int]));
                        assert(seen_v@[old_sv.len() as int]@ == krawv);
                        assert forall|x: Seq<char>| #[trigger] seen.contains(x) implies exists|
                            m: int,
                        |
                            0 <= m < seen_v@.len() && #[trigger] seen_v@[m]@ == x by {
                            if x == krawv {
                                assert(seen_v@[old_sv.len() as int]@ == x);
                            } else {
                                assert(seen_before.contains(x));
                                let m = choose|m: int|
                                    0 <= m < old_sv.len() && #[trigger] old_sv[m]@ == x;
                                assert(seen_v@[m]@ == x);
                            }
                        }
                        assert forall|x: Seq<char>|
                            (exists|m: int|
                                0 <= m < seen_v@.len() && #[trigger] seen_v@[m]@
                                    == x) implies #[trigger] seen.contains(x) by {
                            let m = choose|m: int|
                                0 <= m < seen_v@.len() && #[trigger] seen_v@[m]@ == x;
                            if m < old_sv.len() {
                                assert(old_sv[m]@ == x);
                                assert(seen_before.contains(x));
                            } else {
                                assert(x == krawv);
                            }
                        }
                    }
                }
                let ghost mid = res.deep_view();
                res.push(Extract { key: keys, val: vtext });
                proof {
                    assert(res.deep_view() =~= mid.push(payload));
                    if is_new {
                        let hv = ExtractV { key: key_path_of(krawv), val: heading_prefix() + name@ };
                        assert(extracts_from(s, name@, gi, seen_before) == seq![hv, payload]
                            + extracts_from(s, name@, region_end(s, gi), seen));
                        assert(res.deep_view() =~= prev + seq![hv, payload]);
                        assert(res.deep_view() + extracts_from(s, name@, region_end(s, gi), seen)
                            =~= prev + extracts_from(s, name@, gi, seen_before));
                    } else {
                        assert(extracts_from(s, name@, gi, seen) == seq![payload] + extracts_from(
                            s,
                            name@,
                            region_end(s, gi),
                            seen,
                        ));
                        assert(res.deep_view() =~= prev + seq![payload]);
                        assert(res.deep_view() + extracts_from(s, name@, region_end(s, gi), seen)
                            =~= prev + extracts_from(s, name@, gi, seen));
                    }
                }
                i = reg.end;
            },
        }
    }
    proof {
        assert(extracts_from(s, name@, i as int, seen) =~= Seq::<ExtractV>::empty());
        assert(res.deep_view() =~= res.deep_view() + extracts_from(s, name@, i as int, seen));
    }
    res
}

/// Produces the cleaned copy of a chapter's text: every annotation region
/// is replaced by its trimmed payload, everything else is kept verbatim.
pub fn clean_text(content: &str) -> (r: String)
    ensures
        r@ == cleaned_from(content@, 0),
{
    let ghost s = content@;
    let chars = to_chars(content);
    let n = chars.len();
    let mut out = String::new();
    let mut i: usize = 0;
    while i < n
        invariant
            i <= n,
            n == s.len(),
            chars@ == s,
            s == content@,
            out@ + cleaned_from(s, i as int) == cleaned_from(s, 0),
        decreases n - i,
    {
        let ghost prev = out@;
        match try_region(&chars, i) {
            None => {
                let piece = content.substring_char(i, i + 1);
                out.append(piece);
                proof {
                    assert(piece@ =~= seq![s[i as int]]);
                    assert(prev + piece@ + cleaned_from(s, i + 1) =~= prev + cleaned_from(
                        s,
                        i as int,
                    ));
                }
                i = i + 1;
            },
            Some(reg) => {
                let v = trim_in(content, &chars, reg.vs, reg.ve);
                out.append(v.as_str());
                proof {
                    assert(prev + v@ + cleaned_from(s, region_end(s, i as int)) =~= prev
                        + cleaned_from(s, i as int));
                }
                i = reg.end;
            },
        }
    }
    proof {
        assert(cleaned_from(s, i as int) =~= Seq::<char>::empty());
        assert(out@ =~= out@ + cleaned_from(s, i as int));
    }
    out
}

} // verus!
