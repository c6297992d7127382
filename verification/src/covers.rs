//! Cover discovery support: archive-path arithmetic (percent decoding,
//! path normalization, reference resolution) and the selection rules that
//! pick a cover image out of a book's packaging metadata.
use crate::strutil::{
    chars_to_string, lower_of, spec_starts_with, str_starts_with, str_trim, string_to_chars,
    trim_ws,
};
use vstd::prelude::*;

verus! {

/// Value of one hexadecimal digit byte, or -1.
pub open spec fn hex_val(b: u8) -> int {
    if 48 <= b <= 57 {
        b - 48
    } else if 97 <= b <= 102 {
        b - 87
    } else if 65 <= b <= 70 {
        b - 55
    } else {
        -1
    }
}

/// Value of a two-byte escape payload, or -1 when the pair does not parse
/// as a hexadecimal byte. A leading `+` with one digit parses too, as
/// integer parsing of the two-character string accepts an explicit sign.
pub open spec fn pair_val(b1: u8, b2: u8) -> int {
    if hex_val(b1) >= 0 && hex_val(b2) >= 0 {
        16 * hex_val(b1) + hex_val(b2)
    } else if b1 == 43 && hex_val(b2) >= 0 {
        hex_val(b2)
    } else {
        -1
    }
}

/// Percent decoding of `bs` from position `i`: `%` followed by a parsable
/// two-byte payload becomes that byte, `+` becomes a space, everything else
/// passes through.
pub open spec fn spec_percent_decode(bs: Seq<u8>, i: int) -> Seq<u8>
    decreases bs.len() - i,
{
    if i < 0 || i >= bs.len() {
        Seq::empty()
    } else if bs[i] == 37 && i + 2 < bs.len() && pair_val(bs[i + 1], bs[i + 2]) >= 0 {
        seq![pair_val(bs[i + 1], bs[i + 2]) as u8] + spec_percent_decode(bs, i + 3)
    } else if bs[i] == 43 {
        seq![32u8] + spec_percent_decode(bs, i + 1)
    } else {
        seq![bs[i]] + spec_percent_decode(bs, i + 1)
    }
}

fn hex_val_exec(b: u8) -> (r: Option<u8>)
    ensures
        match r {
            Some(v) => hex_val(b) == v,
            None => hex_val(b) < 0,
        },
{
    if b >= 48 && b <= 57 {
        Some(b - 48)
    } else if b >= 97 && b <= 102 {
        Some(b - 87)
    } else if b >= 65 && b <= 70 {
        Some(b - 55)
    } else {
        None
    }
}

fn pair_val_exec(b1: u8, b2: u8) -> (r: Option<u8>)
    ensures
        match r {
            Some(v) => pair_val(b1, b2) == v,
            None => pair_val(b1, b2) < 0,
        },
{
    match (hex_val_exec(b1), hex_val_exec(b2)) {
        (Some(h1), Some(h2)) => Some(16 * h1 + h2),
        (None, Some(h2)) => {
            if b1 == 43 {
                Some(h2)
            } else {
                None
            }
        },
        _ => None,
    }
}

fn percent_decode_bytes(bytes: &Vec<u8>) -> (r: Vec<u8>)
    ensures
        r@ == spec_percent_decode(bytes@, 0),
{
    let n = bytes.len();
    let mut out: Vec<u8> = Vec::new();
    let mut i: usize = 0;
    while i < n
        invariant
            n == bytes@.len(),
            i <= n,
            spec_percent_decode(bytes@, 0) =~= out@ + spec_percent_decode(bytes@, i as int),
        decreases n - i,
    {
        let b = bytes[i];
        if b == 37 && n - i > 2 {
            match pair_val_exec(bytes[i + 1], bytes[i + 2]) {
                Some(v) => {
                    out.push(v);
                    i = i + 3;
                    continue ;
                },
                None => {},
            }
        }
        if b == 43 {
            out.push(32);
        } else {
            out.push(b);
        }
        i = i + 1;
    }
    out
}

/// Text decoded from `bytes` as UTF-8 with invalid sequences replaced, as
/// `String::from_utf8_lossy` computes it; a function of the bytes alone.
pub uninterp spec fn utf8_lossy_of(bytes: Seq<u8>) -> Seq<char>;

/// Relies on `String::from_utf8_lossy`: the result depends on the bytes
/// alone, and valid UTF-8 input decodes without replacement.
#[verifier::external_body]
fn bytes_to_string_lossy(bytes: &Vec<u8>) -> (r: String)
    ensures
        r@ == utf8_lossy_of(bytes@),
        vstd::utf8::valid_utf8(bytes@) ==> r@ == vstd::utf8::decode_utf8(bytes@),
{
    String::from_utf8_lossy(bytes).into_owned()
}

/// Percent-decodes the bytes of `input` and reads the result back as text,
/// with invalid UTF-8 replaced.
pub fn percent_decode_to_string(input: &str) -> (r: String)
    ensures
        r@ == utf8_lossy_of(spec_percent_decode(vstd::utf8::encode_utf8(input@), 0)),
{
    let bytes = input.as_bytes_vec();
    let decoded = percent_decode_bytes(&bytes);
    bytes_to_string_lossy(&decoded)
}

/// The prefix of `s` before the first occurrence of `c` (all of `s` when
/// `c` does not occur).
pub open spec fn before_first(s: Seq<char>, c: char) -> Seq<char>
    decreases s.len(),
{
    if s.len() == 0 {
        s
    } else if s[0] == c {
        Seq::empty()
    } else {
        seq![s[0]] + before_first(s.drop_first(), c)
    }
}

proof fn lemma_before_first_char(s: Seq<char>, c: char, k: int)
    requires
        0 <= k <= s.len(),
        forall|j: int| 0 <= j < k ==> s[j] != c,
        k < s.len() ==> s[k] == c,
    ensures
        before_first(s, c) =~= s.subrange(0, k),
    decreases k,
{
    if s.len() == 0 {
    } else if k == 0 {
    } else {
        let t = s.drop_first();
        assert(forall|j: int| 0 <= j < k - 1 ==> #[trigger] t[j] != c);
        lemma_before_first_char(t, c, k - 1);
        assert(t.subrange(0, k - 1) =~= s.subrange(1, k));
        assert(before_first(s, c) =~= seq![s[0]] + s.subrange(1, k));
    }
}

/// What `strip_fragment_and_query` keeps of a reference: the part before
/// any fragment marker, then the part of that before any query marker.
pub open spec fn spec_strip_fragment_query(s: Seq<char>) -> Seq<char> {
    before_first(before_first(s, '#'), '?')
}

fn cut_at_char<'a>(s: &'a str, c: char) -> (r: &'a str)
    ensures
        r@ == before_first(s@, c),
{
    let n = s.unicode_len();
    let mut k: usize = 0;
    while k < n && s.get_char(k) != c
        invariant
            n == s@.len(),
            k <= n,
            forall|j: int| 0 <= j < k ==> s@[j] != c,
        decreases n - k,
    {
        k = k + 1;
    }
    proof {
        lemma_before_first_char(s@, c, k as int);
    }
    let r = s.substring_char(0, k);
    r
}

/// Cuts a reference down to its path: everything from the first fragment
/// marker on is dropped, then everything from the first query marker on.
pub fn strip_fragment_and_query<'a>(href: &'a str) -> (r: &'a str)
    ensures
        r@ == spec_strip_fragment_query(href@),
{
    let no_frag = cut_at_char(href, '#');
    cut_at_char(no_frag, '?')
}

/// `s` with backslashes replaced by slashes.
pub open spec fn spec_slashes(s: Seq<char>) -> Seq<char> {
    Seq::new(
        s.len(),
        |i: int|
            if s[i] == '\\' {
                '/'
            } else {
                s[i]
            },
    )
}

/// The segments of `s` between occurrences of `sep`, starting a new
/// segment after each separator; `cur` is the segment under construction.
pub open spec fn spec_split_from(s: Seq<char>, i: int, cur: Seq<char>, sep: char) -> Seq<Seq<char>>
    decreases s.len() - i,
{
    if i < 0 || i >= s.len() {
        seq![cur]
    } else if s[i] == sep {
        seq![cur] + spec_split_from(s, i + 1, Seq::empty(), sep)
    } else {
        spec_split_from(s, i + 1, cur.push(s[i]), sep)
    }
}

/// The `sep`-separated segments of `s`.
pub open spec fn spec_split(s: Seq<char>, sep: char) -> Seq<Seq<char>> {
    spec_split_from(s, 0, Seq::empty(), sep)
}

/// Stack normalization of path segments: empty and `.` segments vanish,
/// `..` pops the previous kept segment, everything else is kept.
pub open spec fn spec_norm_segments(segs: Seq<Seq<char>>, i: int, acc: Seq<Seq<char>>) -> Seq<
    Seq<char>,
>
    decreases segs.len() - i,
{
    if i < 0 || i >= segs.len() {
        acc
    } else {
        let sg = segs[i];
        if sg.len() == 0 || sg == "."@ {
            spec_norm_segments(segs, i + 1, acc)
        } else if sg == ".."@ {
            spec_norm_segments(
                segs,
                i + 1,
                if acc.len() > 0 {
                    acc.drop_last()
                } else {
                    acc
                },
            )
        } else {
            spec_norm_segments(segs, i + 1, acc.push(sg))
        }
    }
}

/// The segments joined with `sep` between them.
pub open spec fn spec_join(parts: Seq<Seq<char>>, sep: char) -> Seq<char>
    decreases parts.len(),
{
    if parts.len() == 0 {
        Seq::empty()
    } else if parts.len() == 1 {
        parts[0]
    } else {
        parts[0] + seq![sep] + spec_join(parts.drop_first(), sep)
    }
}

/// The normalized form of an archive path: backslashes become slashes, and
/// the slash-separated segments are stack-normalized and rejoined.
pub open spec fn spec_normalize_zip_path(s: Seq<char>) -> Seq<char> {
    spec_join(spec_norm_segments(spec_split(spec_slashes(s), '/'), 0, Seq::empty()), '/')
}

proof fn lemma_join_snoc(parts: Seq<Seq<char>>, sg: Seq<char>, sep: char)
    ensures
        spec_join(parts.push(sg), sep) =~= if parts.len() == 0 {
            sg
        } else {
            spec_join(parts, sep) + seq![sep] + sg
        },
    decreases parts.len(),
{
    if parts.len() == 0 {
        assert(parts.push(sg)[0] == sg);
    } else {
        lemma_join_snoc(parts.drop_first(), sg, sep);
        assert(parts.push(sg).drop_first() =~= parts.drop_first().push(sg));
        if parts.len() == 1 {
            assert(parts.drop_first() =~= Seq::<Seq<char>>::empty());
        }
    }
}

/// Normalizes an archive path: backslashes become slashes; empty and `.`
/// segments vanish; `..` pops the previous segment; the rest are rejoined
/// with single slashes.
pub fn normalize_zip_path(path: &str) -> (r: String)
    ensures
        r@ == spec_normalize_zip_path(path@),
{
    let raw = string_to_chars(path);
    let n = raw.len();
    let mut v: Vec<char> = Vec::new();
    let mut i: usize = 0;
    while i < n
        invariant
            n == raw@.len(),
            i <= n,
            v@ =~= spec_slashes(raw@).subrange(0, i as int),
        decreases n - i,
    {
        let c = raw[i];
        if c == '\\' {
            v.push('/');
        } else {
            v.push(c);
        }
        proof {
            assert(v@ =~= spec_slashes(raw@).subrange(0, i + 1));
        }
        i = i + 1;
    }
    proof {
        assert(v@ =~= spec_slashes(raw@));
    }
    let ghost sl = spec_slashes(raw@);
    let mut parts: Vec<Vec<char>> = Vec::new();
    let mut cur: Vec<char> = Vec::new();
    let mut k: usize = 0;
    while k < n
        invariant
            n == v@.len(),
            sl == v@,
            k <= n,
            spec_split(sl, '/') =~= parts@.map_values(|p: Vec<char>| p@) + spec_split_from(
                sl,
                k as int,
                cur@,
                '/',
            ),
        decreases n - k,
    {
        let c = v[k];
        if c == '/' {
            let ghost old_parts = parts@;
            let ghost old_cur = cur@;
            parts.push(cur);
            cur = Vec::new();
            proof {
                assert(parts@.map_values(|p: Vec<char>| p@) =~= old_parts.map_values(
                    |p: Vec<char>| p@,
                ).push(old_cur));
            }
        } else {
            cur.push(c);
        }
        k = k + 1;
    }
    parts.push(cur);
    let ghost segs = spec_split(sl, '/');
    proof {
        assert(segs =~= parts@.map_values(|p: Vec<char>| p@));
    }
    let m = parts.len();
    let mut acc: Vec<Vec<char>> = Vec::new();
    let mut j: usize = 0;
    proof {
        assert(acc@.map_values(|p: Vec<char>| p@) =~= Seq::<Seq<char>>::empty());
    }
    while j < m
        invariant
            m == parts@.len(),
            segs == parts@.map_values(|p: Vec<char>| p@),
            j <= m,
            spec_norm_segments(segs, 0, Seq::empty()) =~= spec_norm_segments(
                segs,
                j as int,
                acc@.map_values(|p: Vec<char>| p@),
            ),
        decreases m - j,
    {
        let sg = &parts[j];
        let ghost old_acc = acc@;
        proof {
            reveal_strlit(".");
            reveal_strlit("..");
            assert(segs[j as int] == parts@[j as int]@);
        }
        if sg.len() == 0 {
        } else if sg.len() == 1 && sg[0] == '.' {
            proof {
                assert(sg@ =~= "."@);
            }
        } else if sg.len() == 2 && sg[0] == '.' && sg[1] == '.' {
            proof {
                assert(sg@ =~= ".."@);
            }
            if acc.len() > 0 {
                let popped = acc.pop();
                proof {
                    assert(acc@.map_values(|p: Vec<char>| p@) =~= old_acc.map_values(
                        |p: Vec<char>| p@,
                    ).drop_last());
                }
            }
        } else {
            proof {
                assert(sg@.len() != "."@.len() || sg@[0] != "."@[0] ==> sg@ != "."@);
                if sg@.len() == 1 {
                    assert(sg@ != ".."@);
                }
            }
            let copy = crate::strutil::subvec(sg, 0, sg.len());
            proof {
                assert(copy@ =~= sg@);
            }
            acc.push(copy);
            proof {
                assert(acc@.map_values(|p: Vec<char>| p@) =~= old_acc.map_values(
                    |p: Vec<char>| p@,
                ).push(sg@));
            }
        }
        j = j + 1;
    }
    let ghost accv = acc@.map_values(|p: Vec<char>| p@);
    proof {
        assert(spec_norm_segments(segs, 0, Seq::empty()) =~= accv);
    }
    let mut out: Vec<char> = Vec::new();
    let t = acc.len();
    let mut q: usize = 0;
    while q < t
        invariant
            t == acc@.len(),
            accv == acc@.map_values(|p: Vec<char>| p@),
            q <= t,
            out@ =~= spec_join(accv.subrange(0, q as int), '/'),
        decreases t - q,
    {
        if q > 0 {
            out.push('/');
        }
        crate::strutil::push_all(&mut out, &acc[q]);
        proof {
            lemma_join_snoc(accv.subrange(0, q as int), accv[q as int], '/');
            assert(accv.subrange(0, q + 1) =~= accv.subrange(0, q as int).push(accv[q as int]));
            assert(acc@[q as int]@ == accv[q as int]);
        }
        q = q + 1;
    }
    proof {
        assert(accv.subrange(0, t as int) =~= accv);
    }
    chars_to_string(&out)
}

/// `s` without its leading run of `c`.
pub open spec fn drop_leading(s: Seq<char>, c: char) -> Seq<char>
    decreases s.len(),
{
    if s.len() > 0 && s[0] == c {
        drop_leading(s.drop_first(), c)
    } else {
        s
    }
}

proof fn lemma_drop_leading_char(s: Seq<char>, c: char, a: int)
    requires
        0 <= a <= s.len(),
        forall|j: int| 0 <= j < a ==> s[j] == c,
        a < s.len() ==> s[a] != c,
    ensures
        drop_leading(s, c) =~= s.subrange(a, s.len() as int),
    decreases a,
{
    if a == 0 {
        assert(drop_leading(s, c) =~= s.subrange(0, s.len() as int));
    } else {
        let t = s.drop_first();
        assert(forall|j: int| 0 <= j < a - 1 ==> #[trigger] t[j] == c);
        lemma_drop_leading_char(t, c, a - 1);
        assert(t.subrange(a - 1, t.len() as int) =~= s.subrange(a, s.len() as int));
    }
}

/// The cleaned form of a packaging reference: fragment and query dropped,
/// white space trimmed, percent escapes decoded.
pub open spec fn spec_cleaned_href(href: Seq<char>) -> Seq<char> {
    utf8_lossy_of(
        spec_percent_decode(
            vstd::utf8::encode_utf8(trim_ws(spec_strip_fragment_query(href))),
            0,
        ),
    )
}

/// Resolution of a packaging reference against the file it occurs in:
/// external references stay as they are; an absolute reference drops its
/// leading slashes; a relative one is joined onto the base file's
/// directory; either way the result is normalized as an archive path.
pub open spec fn spec_resolve_epub_href(base: Seq<char>, href: Seq<char>) -> Seq<char> {
    let cleaned = spec_cleaned_href(href);
    if spec_starts_with(cleaned, "http://"@) || spec_starts_with(cleaned, "https://"@) {
        cleaned
    } else {
        let joined = if cleaned.len() > 0 && cleaned[0] == '/' {
            drop_leading(cleaned, '/')
        } else {
            let bd = crate::library::before_last(base, '/');
            if bd.len() == 0 {
                cleaned
            } else {
                bd + seq!['/'] + cleaned
            }
        };
        spec_normalize_zip_path(joined)
    }
}

/// Resolves a packaging reference against the path of the file that holds
/// it, yielding a normalized archive path (or the reference untouched when
/// it points outside the archive).
pub fn resolve_epub_href(base_file: &str, href: &str) -> (r: String)
    ensures
        r@ == spec_resolve_epub_href(base_file@, href@),
{
    let stripped = strip_fragment_and_query(href);
    let trimmed = str_trim(stripped);
    let cleaned = percent_decode_to_string(trimmed);
    if str_starts_with(cleaned.as_str(), "http://") || str_starts_with(
        cleaned.as_str(),
        "https://",
    ) {
        return cleaned;
    }
    let cchars = string_to_chars(cleaned.as_str());
    let clen = cchars.len();
    let joined: String = if clen > 0 && cchars[0] == '/' {
        let mut a: usize = 0;
        while a < clen && cchars[a] == '/'
            invariant
                clen == cchars@.len(),
                a <= clen,
                forall|j: int| 0 <= j < a ==> cchars@[j] == '/',
            decreases clen - a,
        {
            a = a + 1;
        }
        proof {
            lemma_drop_leading_char(cchars@, '/', a as int);
        }
        let tail = crate::strutil::subvec(&cchars, a, clen);
        chars_to_string(&tail)
    } else {
        let bchars = string_to_chars(base_file);
        let bd: Vec<char> = match crate::library::find_last(&bchars, '/') {
            Some(i) => {
                proof {
                    crate::library::lemma_after_last_at(bchars@, '/', i as int);
                }
                crate::strutil::subvec(&bchars, 0, i)
            },
            None => {
                proof {
                    crate::library::lemma_after_last_absent(bchars@, '/');
                }
                Vec::new()
            },
        };
        proof {
            assert(bd@ =~= crate::library::before_last(base_file@, '/'));
        }
        if bd.len() == 0 {
            chars_to_string(&cchars)
        } else {
            let mut jv = bd;
            jv.push('/');
            crate::strutil::push_all(&mut jv, &cchars);
            proof {
                assert(jv@ =~= crate::library::before_last(base_file@, '/') + seq!['/']
                    + cleaned@);
            }
            chars_to_string(&jv)
        }
    };
    normalize_zip_path(joined.as_str())
}

/// Whether a path, compared case-insensitively, carries a supported image
/// extension.
pub fn is_supported_image_path(path: &str) -> (r: bool)
    ensures
        r == crate::cbz::is_image_name(lower_of(path@)),
{
    let lower = crate::strutil::to_lowercase(path);
    crate::cbz::has_image_extension(lower.as_str())
}

/// ASCII case folding of a code point: upper-case letters map to their
/// lower-case forms, everything else stays.
pub open spec fn ascii_fold(u: u32) -> u32 {
    if 65 <= u <= 90 {
        (u + 32) as u32
    } else {
        u
    }
}

/// Equality of character sequences up to ASCII case, as
/// `eq_ignore_ascii_case` decides it.
pub open spec fn ascii_eq(a: Seq<char>, b: Seq<char>) -> bool {
    a.len() == b.len() && forall|i: int|
        0 <= i < a.len() ==> ascii_fold(#[trigger] a[i] as u32) == ascii_fold(b[i] as u32)
}

fn ascii_fold_exec(u: u32) -> (r: u32)
    ensures
        r == ascii_fold(u),
{
    if u >= 65 && u <= 90 {
        u + 32
    } else {
        u
    }
}

/// Decides `ascii_eq` on string slices.
pub fn str_eq_ignore_ascii_case(a: &str, b: &str) -> (r: bool)
    ensures
        r == ascii_eq(a@, b@),
{
    let n = a.unicode_len();
    if n != b.unicode_len() {
        return false;
    }
    let mut i: usize = 0;
    while i < n
        invariant
            n == a@.len(),
            n == b@.len(),
            i <= n,
            forall|j: int|
                0 <= j < i ==> ascii_fold(#[trigger] a@[j] as u32) == ascii_fold(b@[j] as u32),
        decreases n - i,
    {
        let ca = a.get_char(i) as u32;
        let cb = b.get_char(i) as u32;
        if ascii_fold_exec(ca) != ascii_fold_exec(cb) {
            return false;
        }
        i = i + 1;
    }
    true
}

/// One manifest entry of a book package: its identifier, where it points,
/// and its declared media type and properties.
#[derive(Debug, Clone)]
pub struct ManifestItem {
    pub id: String,
    pub href: String,
    pub media_type: Option<String>,
    pub properties: Option<String>,
}

/// A manifest item that is an image: its media type starts with `image/`
/// (case-insensitively), or its reference has a supported image extension.
pub open spec fn spec_is_image_item(it: ManifestItem) -> bool {
    (match it.media_type {
        Some(mt) => spec_starts_with(lower_of(mt@), "image/"@),
        None => false,
    }) || crate::cbz::is_image_name(lower_of(it.href@))
}

/// Decides `spec_is_image_item`.
pub fn is_image_item(it: &ManifestItem) -> (r: bool)
    ensures
        r == spec_is_image_item(*it),
{
    let by_type = match &it.media_type {
        Some(mt) => {
            let low = crate::strutil::to_lowercase(mt.as_str());
            str_starts_with(low.as_str(), "image/")
        },
        None => false,
    };
    if by_type {
        return true;
    }
    is_supported_image_path(it.href.as_str())
}

/// Whether a properties attribute contains the `cover-image` token: an
/// occurrence of it, compared up to ASCII case, delimited by white space or
/// the ends of the attribute.
pub open spec fn spec_has_cover_image_prop(p: Seq<char>) -> bool {
    exists|i: int|
        0 <= i && i + 11 <= p.len() && ascii_eq(#[trigger] p.subrange(i, i + 11), "cover-image"@)
            && (i == 0 || crate::strutil::is_ws_char(p[i - 1])) && (i + 11 == p.len()
            || crate::strutil::is_ws_char(p[i + 11]))
}

fn ascii_eq_at(v: &Vec<char>, i: usize, pat: &Vec<char>) -> (r: bool)
    requires
        i + pat@.len() <= v@.len(),
    ensures
        r == ascii_eq(v@.subrange(i as int, i + pat@.len()), pat@),
{
    let m = pat.len();
    let vl = v.len();
    let mut k: usize = 0;
    while k < m
        invariant
            m == pat@.len(),
            vl == v@.len(),
            i + m <= vl,
            k <= m,
            forall|j: int|
                0 <= j < k ==> ascii_fold(#[trigger] v@[i + j] as u32) == ascii_fold(
                    pat@[j] as u32,
                ),
        decreases m - k,
    {
        if ascii_fold_exec(v[i + k] as u32) != ascii_fold_exec(pat[k] as u32) {
            proof {
                assert(v@.subrange(i as int, i + pat@.len())[k as int] == v@[i + k]);
            }
            return false;
        }
        k = k + 1;
    }
    proof {
        assert forall|j: int|
            0 <= j < pat@.len() implies ascii_fold(
            #[trigger] v@.subrange(i as int, i + pat@.len())[j] as u32,
        ) == ascii_fold(pat@[j] as u32) by {
            assert(v@.subrange(i as int, i + pat@.len())[j] == v@[i + j]);
        }
    }
    true
}

/// Decides `spec_has_cover_image_prop`.
pub fn has_cover_image_prop(props: &str) -> (r: bool)
    ensures
        r == spec_has_cover_image_prop(props@),
{
    let v = string_to_chars(props);
    let pat = string_to_chars("cover-image");
    proof {
        reveal_strlit("cover-image");
    }
    let n = v.len();
    if n < 11 {
        proof {
            assert forall|i: int| !(0 <= i && i + 11 <= props@.len() && ascii_eq(
                #[trigger] props@.subrange(i, i + 11),
                "cover-image"@,
            ) && (i == 0 || crate::strutil::is_ws_char(props@[i - 1])) && (i + 11 == props@.len()
                || crate::strutil::is_ws_char(props@[i + 11]))) by {}
        }
        return false;
    }
    let mut i: usize = 0;
    while i <= n - 11
        invariant
            n == v@.len(),
            v@ == props@,
            pat@ == "cover-image"@,
            pat@.len() == 11,
            11 <= n,
            i <= n - 11 + 1,
            forall|k: int|
                0 <= k < i ==> !(ascii_eq(#[trigger] props@.subrange(k, k + 11), "cover-image"@)
                    && (k == 0 || crate::strutil::is_ws_char(props@[k - 1])) && (k + 11
                    == props@.len() || crate::strutil::is_ws_char(props@[k + 11]))),
        decreases n - i,
    {
        let left_ok = i == 0 || crate::strutil::is_ws(v[i - 1]);
        let right_ok = i + 11 == n || crate::strutil::is_ws(v[i + 11]);
        if left_ok && right_ok && ascii_eq_at(&v, i, &pat) {
            return true;
        }
        i = i + 1;
    }
    proof {
        assert forall|k: int| !(0 <= k && k + 11 <= props@.len() && ascii_eq(
            #[trigger] props@.subrange(k, k + 11),
            "cover-image"@,
        ) && (k == 0 || crate::strutil::is_ws_char(props@[k - 1])) && (k + 11 == props@.len()
            || crate::strutil::is_ws_char(props@[k + 11]))) by {
            if 0 <= k && k + 11 <= props@.len() {
                assert(k < i);
            }
        }
    }
    false
}

/// A manifest item that declares itself the cover image: an image item
/// whose properties carry the `cover-image` token.
pub open spec fn spec_cover_image_candidate(it: ManifestItem) -> bool {
    spec_is_image_item(it) && (match it.properties {
        Some(p) => spec_has_cover_image_prop(p@),
        None => false,
    })
}

/// Finds the first manifest item that declares itself the cover image.
pub fn find_epub3_cover(manifest: &Vec<ManifestItem>) -> (r: Option<usize>)
    ensures
        match r {
            Some(i) => i < manifest@.len() && spec_cover_image_candidate(manifest@[i as int])
                && forall|j: int| 0 <= j < i ==> !spec_cover_image_candidate(manifest@[j]),
            None => forall|j: int|
                0 <= j < manifest@.len() ==> !spec_cover_image_candidate(manifest@[j]),
        },
{
    let n = manifest.len();
    let mut i: usize = 0;
    while i < n
        invariant
            n == manifest@.len(),
            i <= n,
            forall|j: int| 0 <= j < i ==> !spec_cover_image_candidate(manifest@[j]),
        decreases n - i,
    {
        let it = &manifest[i];
        let is_candidate = is_image_item(it) && (match &it.properties {
            Some(p) => has_cover_image_prop(p.as_str()),
            None => false,
        });
        if is_candidate {
            return Some(i);
        }
        i = i + 1;
    }
    None
}

/// Finds the first image item whose identifier equals the declared cover
/// identifier.
pub fn find_cover_by_id(manifest: &Vec<ManifestItem>, cover_id: &str) -> (r: Option<usize>)
    ensures
        match r {
            Some(i) => i < manifest@.len() && manifest@[i as int].id@ == cover_id@
                && spec_is_image_item(manifest@[i as int]) && forall|j: int|
                0 <= j < i ==> !(manifest@[j].id@ == cover_id@ && spec_is_image_item(manifest@[j])),
            None => forall|j: int|
                0 <= j < manifest@.len() ==> !(manifest@[j].id@ == cover_id@ && spec_is_image_item(
                    manifest@[j],
                )),
        },
{
    let n = manifest.len();
    let mut i: usize = 0;
    while i < n
        invariant
            n == manifest@.len(),
            i <= n,
            forall|j: int|
                0 <= j < i ==> !(manifest@[j].id@ == cover_id@ && spec_is_image_item(manifest@[j])),
        decreases n - i,
    {
        let it = &manifest[i];
        if crate::strutil::str_eq(it.id.as_str(), cover_id) && is_image_item(it) {
            return Some(i);
        }
        i = i + 1;
    }
    None
}

/// Whether `needle` occurs anywhere in `hay`.
pub open spec fn seq_contains_sub(hay: Seq<char>, needle: Seq<char>) -> bool {
    exists|i: int| crate::strutil::match_at(hay, needle, i)
}

fn lower_contains(s: &str, needle: &str) -> (r: bool)
    ensures
        r == seq_contains_sub(lower_of(s@), needle@),
{
    let low = crate::strutil::to_lowercase(s);
    let hay = string_to_chars(low.as_str());
    let pat = string_to_chars(needle);
    let found = crate::strutil::find_first(&hay, &pat);
    proof {
        if found is Some {
            assert(crate::strutil::match_at(lower_of(s@), needle@, found->0 as int));
        }
    }
    found.is_some()
}

/// A manifest image item whose identifier or reference merely suggests a
/// cover: `cover` in the identifier or reference, or `title` in the
/// reference, compared in lower case.
pub open spec fn spec_cover_name_hint(it: ManifestItem) -> bool {
    spec_is_image_item(it) && (seq_contains_sub(lower_of(it.id@), "cover"@) || seq_contains_sub(
        lower_of(it.href@),
        "cover"@,
    ) || seq_contains_sub(lower_of(it.href@), "title"@))
}

/// Finds the first image item whose identifier or reference suggests a
/// cover.
pub fn find_cover_heuristic(manifest: &Vec<ManifestItem>) -> (r: Option<usize>)
    ensures
        match r {
            Some(i) => i < manifest@.len() && spec_cover_name_hint(manifest@[i as int]) && forall|
                j: int,
            | 0 <= j < i ==> !spec_cover_name_hint(manifest@[j]),
            None => forall|j: int|
                0 <= j < manifest@.len() ==> !spec_cover_name_hint(manifest@[j]),
        },
{
    let n = manifest.len();
    let mut i: usize = 0;
    while i < n
        invariant
            n == manifest@.len(),
            i <= n,
            forall|j: int| 0 <= j < i ==> !spec_cover_name_hint(manifest@[j]),
        decreases n - i,
    {
        let it = &manifest[i];
        let hit = is_image_item(it) && (lower_contains(it.id.as_str(), "cover") || lower_contains(
            it.href.as_str(),
            "cover",
        ) || lower_contains(it.href.as_str(), "title"));
        if hit {
            return Some(i);
        }
        i = i + 1;
    }
    None
}

/// Whether a guide reference type names the cover or title page, compared
/// up to ASCII case.
pub fn is_cover_reference_type(typ: &str) -> (r: bool)
    ensures
        r == (ascii_eq(typ@, "cover"@) || ascii_eq(typ@, "title-page"@)),
{
    str_eq_ignore_ascii_case(typ, "cover") || str_eq_ignore_ascii_case(typ, "title-page")
}

/// A file name that the cover fallback accepts: it mentions `cover` or
/// `title` and carries a supported image extension, in lower case.
pub fn is_epub_cover_fallback_name(name: &str) -> (r: bool)
    ensures
        r == ((seq_contains_sub(lower_of(name@), "cover"@) || seq_contains_sub(
            lower_of(name@),
            "title"@,
        )) && crate::cbz::is_image_name(lower_of(name@))),
{
    let mentions = lower_contains(name, "cover") || lower_contains(name, "title");
    mentions && is_supported_image_path(name)
}

/// Whether a lower-cased name carries one of the image extensions the
/// comic-archive cover scan accepts.
pub open spec fn is_cbz_cover_image_name(lower: Seq<char>) -> bool {
    ||| crate::strutil::spec_ends_with(lower, ".jpg"@)
    ||| crate::strutil::spec_ends_with(lower, ".jpeg"@)
    ||| crate::strutil::spec_ends_with(lower, ".png"@)
    ||| crate::strutil::spec_ends_with(lower, ".webp"@)
}

/// Decides `is_cbz_cover_image_name` on a raw entry name.
pub fn is_cbz_cover_image(name: &str) -> (r: bool)
    ensures
        r == is_cbz_cover_image_name(lower_of(name@)),
{
    let low = crate::strutil::to_lowercase(name);
    crate::strutil::str_ends_with(low.as_str(), ".jpg") || crate::strutil::str_ends_with(
        low.as_str(),
        ".jpeg",
    ) || crate::strutil::str_ends_with(low.as_str(), ".png") || crate::strutil::str_ends_with(
        low.as_str(),
        ".webp",
    )
}

/// Book formats the cover extractor knows how to open.
#[derive(Debug, Clone, Copy, PartialEq, Eq, Structural)]
pub enum CoverFormat {
    Pdf,
    Epub,
    Cbz,
    Unsupported,
}

/// The format the cover extractor infers from a path: the text after the
/// last dot (the whole path when there is no dot), lower-cased; comic
/// archives come in two spellings.
pub open spec fn spec_cover_format(path: Seq<char>) -> CoverFormat {
    let seg = if exists|i: int| 0 <= i < path.len() && path[i] == '.' {
        crate::library::after_last(path, '.')
    } else {
        path
    };
    let f = lower_of(seg);
    if f == "pdf"@ {
        CoverFormat::Pdf
    } else if f == "epub"@ {
        CoverFormat::Epub
    } else if f == "cbz"@ || f == "cbr"@ {
        CoverFormat::Cbz
    } else {
        CoverFormat::Unsupported
    }
}

/// Infers the cover-extraction format from a book path.
pub fn cover_format_of(path: &str) -> (r: CoverFormat)
    ensures
        r == spec_cover_format(path@),
{
    let chars = string_to_chars(path);
    let cl = chars.len();
    let ghost has_dot = exists|i: int| 0 <= i < path@.len() && path@[i] == '.';
    let seg: Vec<char> = match crate::library::find_last(&chars, '.') {
        Some(i) => {
            proof {
                crate::library::lemma_after_last_at(chars@, '.', i as int);
                assert(path@[i as int] == '.');
                assert(has_dot);
            }
            crate::strutil::subvec(&chars, i + 1, cl)
        },
        None => {
            proof {
                crate::library::lemma_after_last_absent(chars@, '.');
                assert(!has_dot);
            }
            crate::strutil::subvec(&chars, 0, cl)
        },
    };
    proof {
        if has_dot {
            assert(seg@ =~= crate::library::after_last(path@, '.'));
        } else {
            assert(seg@ =~= path@);
        }
    }
    let seg_s = chars_to_string(&seg);
    let low = crate::strutil::to_lowercase(seg_s.as_str());
    if crate::strutil::str_eq(low.as_str(), "pdf") {
        CoverFormat::Pdf
    } else if crate::strutil::str_eq(low.as_str(), "epub") {
        CoverFormat::Epub
    } else if crate::strutil::str_eq(low.as_str(), "cbz") || crate::strutil::str_eq(
        low.as_str(),
        "cbr",
    ) {
        CoverFormat::Cbz
    } else {
        CoverFormat::Unsupported
    }
}

/// Finds the first name equal to `wanted` up to full lower-casing, as the
/// case-insensitive archive lookup does.
pub fn find_name_case_insensitive(names: &Vec<String>, wanted: &str) -> (r: Option<usize>)
    ensures
        match r {
            Some(i) => i < names@.len() && lower_of(names@[i as int]@) == lower_of(wanted@)
                && forall|j: int| 0 <= j < i ==> lower_of(names@[j]@) != lower_of(wanted@),
            None => forall|j: int| 0 <= j < names@.len() ==> lower_of(names@[j]@) != lower_of(
                wanted@,
            ),
        },
{
    let lw = crate::strutil::to_lowercase(wanted);
    let n = names.len();
    let mut i: usize = 0;
    while i < n
        invariant
            n == names@.len(),
            i <= n,
            lw@ == lower_of(wanted@),
            forall|j: int| 0 <= j < i ==> lower_of(names@[j]@) != lower_of(wanted@),
        decreases n - i,
    {
        let ln = crate::strutil::to_lowercase(names[i].as_str());
        if crate::strutil::str_eq(ln.as_str(), lw.as_str()) {
            return Some(i);
        }
        i = i + 1;
    }
    None
}

} // verus!
