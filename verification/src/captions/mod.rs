//! Subtitles and captions: the timed-text formats, markup stripping for the
//! rasterizer, and language codes for the containers that carry a caption
//! track.

use vstd::prelude::*;
use vstd::string::StrSliceExecFns;

verus! {

/// Horizontal alignment of caption lines within the caption box.
#[derive(Clone, Copy, Debug, PartialEq, Eq, Structural, Default)]
pub enum CaptionAlign {
    Left,
    #[default]
    Center,
    Right,
}

/// Which edge of the frame the caption block is anchored to.
#[derive(Clone, Copy, Debug, PartialEq, Eq, Structural, Default)]
pub enum CaptionAnchor {
    Top,
    Middle,
    #[default]
    Bottom,
}

/// Timed-text file format.
#[derive(Clone, Copy, Debug, PartialEq, Eq, Structural)]
pub enum CaptionFormat {
    /// SubRip (`.srt`) — the most widely accepted sidecar format.
    Srt,
    /// WebVTT (`.vtt`) — the format `<track>` takes in browsers.
    Vtt,
}

/// Why parsing a subtitle file failed.
#[derive(Clone, Debug, PartialEq, Eq)]
pub enum CaptionError {
    /// A timestamp line was not `HH:MM:SS,mmm --> HH:MM:SS,mmm`.
    BadTimestamp { line: usize, text: String },
    /// A cue block had no `-->` timing line.
    MissingTiming { line: usize },
    /// The input had no cues at all.
    Empty,
    /// Text did not look like the requested format (e.g. no `WEBVTT` header).
    NotRecognized,
}

/// `String::push` appends one `char` to the string's characters.
pub assume_specification[ String::push ](string: &mut String, ch: char)
    ensures
        final(string)@ == old(string)@.push(ch),
;

/// The characters of a string slice.
fn chars_of(s: &str) -> (v: Vec<char>)
    ensures
        v@ == s@,
{
    let n = s.unicode_len();
    let mut v: Vec<char> = Vec::new();
    let mut i: usize = 0;
    while i < n
        invariant
            n == s@.len(),
            i <= n,
            v@ == s@.subrange(0, i as int),
        decreases n - i,
    {
        v.push(s.get_char(i));
        i = i + 1;
        proof {
            assert(v@ =~= s@.subrange(0, i as int));
        }
    }
    proof {
        assert(v@ =~= s@);
    }
    v
}

/// ASCII lower case of a character; anything else is left alone.
pub open spec fn to_lower(c: char) -> char {
    if 'A' <= c <= 'Z' {
        ((c as u32) + 32) as char
    } else {
        c
    }
}

fn lower_char(c: char) -> (r: char)
    ensures
        r == to_lower(c),
{
    if 'A' <= c && c <= 'Z' {
        ((c as u8) + 32) as char
    } else {
        c
    }
}

/// The characters after the last `.`, or all of them where there is none.
pub open spec fn after_last_dot(s: Seq<char>) -> Seq<char>
    decreases s.len(),
{
    if s.len() == 0 {
        s
    } else if s.last() == '.' {
        Seq::empty()
    } else {
        after_last_dot(s.drop_last()).push(s.last())
    }
}

/// The format a lower-case extension names.
pub open spec fn format_for_extension(e: Seq<char>) -> Option<CaptionFormat> {
    if e == seq!['s', 'r', 't'] {
        Some(CaptionFormat::Srt)
    } else if e == seq!['v', 't', 't'] || e == seq!['w', 'e', 'b', 'v', 't', 't'] {
        Some(CaptionFormat::Vtt)
    } else {
        None
    }
}

/// The suffix from `k` on is what follows the last dot, when no dot lies in it
/// and a dot (or the start) precedes it.
proof fn lemma_after_last_dot(s: Seq<char>, k: int)
    requires
        0 <= k <= s.len(),
        forall|j: int| k <= j < s.len() ==> s[j] != '.',
        k == 0 || s[k - 1] == '.',
    ensures
        after_last_dot(s) == s.subrange(k, s.len() as int),
    decreases s.len(),
{
    if s.len() > 0 {
        if k == s.len() {
            assert(s.subrange(k, s.len() as int) =~= Seq::<char>::empty());
        } else {
            lemma_after_last_dot(s.drop_last(), k);
            assert(s.subrange(k, s.len() as int) =~= s.drop_last().subrange(k, s.len() - 1).push(s.last()));
        }
    } else {
        assert(s.subrange(k, s.len() as int) =~= s);
    }
}

/// Whether a character sequence spells `w`.
fn spells(a: &Vec<char>, w: &[char]) -> (b: bool)
    ensures
        b == (a@ == w@),
{
    if a.len() != w.len() {
        return false;
    }
    let mut i: usize = 0;
    while i < a.len()
        invariant
            a@.len() == w@.len(),
            i <= a@.len(),
            forall|j: int| 0 <= j < i ==> a@[j] == w@[j],
        decreases a@.len() - i,
    {
        if a[i] != w[i] {
            return false;
        }
        i = i + 1;
    }
    proof {
        assert(a@ =~= w@);
    }
    true
}

impl CaptionFormat {
    /// File extension without the dot (`"srt"`, `"vtt"`).
    pub fn extension(self) -> (e: &'static str)
        ensures
            e@ == (match self {
                CaptionFormat::Srt => "srt"@,
                CaptionFormat::Vtt => "vtt"@,
            }),
    {
        match self {
            CaptionFormat::Srt => "srt",
            CaptionFormat::Vtt => "vtt",
        }
    }

    /// MIME type, for browser downloads / `Blob` construction.
    pub fn mime_type(self) -> (m: &'static str)
        ensures
            m@ == (match self {
                CaptionFormat::Srt => "application/x-subrip"@,
                CaptionFormat::Vtt => "text/vtt"@,
            }),
    {
        match self {
            CaptionFormat::Srt => "application/x-subrip",
            CaptionFormat::Vtt => "text/vtt",
        }
    }

    /// Infer the format from a file name / path extension: what follows the
    /// last `.` (the whole name where there is none), case-insensitively.
    pub fn from_path(path: &str) -> (r: Option<CaptionFormat>)
        ensures
            r == format_for_extension(after_last_dot(path@).map_values(|c: char| to_lower(c))),
    {
        let cs = chars_of(path);
        let n = cs.len();
        let mut k: usize = n;
        while k > 0 && cs[k - 1] != '.'
            invariant
                n == cs@.len(),
                k <= n,
                forall|j: int| k <= j < n ==> cs@[j] != '.',
            decreases k,
        {
            k = k - 1;
        }
        proof {
            lemma_after_last_dot(cs@, k as int);
        }
        let mut ext: Vec<char> = Vec::new();
        let mut i: usize = k;
        while i < n
            invariant
                n == cs@.len(),
                k <= i <= n,
                ext@ == cs@.subrange(k as int, i as int).map_values(|c: char| to_lower(c)),
            decreases n - i,
        {
            ext.push(lower_char(cs[i]));
            i = i + 1;
            proof {
                assert(ext@ =~= cs@.subrange(k as int, i as int).map_values(|c: char| to_lower(c)));
            }
        }
        let srt = ['s', 'r', 't'];
        let vtt = ['v', 't', 't'];
        let webvtt = ['w', 'e', 'b', 'v', 't', 't'];
        proof {
            assert(srt@ =~= seq!['s', 'r', 't']);
            assert(vtt@ =~= seq!['v', 't', 't']);
            assert(webvtt@ =~= seq!['w', 'e', 'b', 'v', 't', 't']);
        }
        if spells(&ext, &srt) {
            Some(CaptionFormat::Srt)
        } else if spells(&ext, &vtt) || spells(&ext, &webvtt) {
            Some(CaptionFormat::Vtt)
        } else {
            None
        }
    }
}

/// The characters after the first `c`, or none where `c` does not occur:
/// what is left once a markup run closed by `c` has been skipped.
pub open spec fn skip_past(s: Seq<char>, c: char) -> Seq<char>
    decreases s.len(),
{
    if s.len() == 0 {
        s
    } else if s[0] == c {
        s.drop_first()
    } else {
        skip_past(s.drop_first(), c)
    }
}

pub proof fn lemma_skip_past_len(s: Seq<char>, c: char)
    ensures
        skip_past(s, c).len() <= s.len(),
    decreases s.len(),
{
    if s.len() > 0 && s[0] != c {
        lemma_skip_past_len(s.drop_first(), c);
    }
}

/// Whether a character may appear in an entity name.
pub open spec fn entity_char(c: char) -> bool {
    ('a' <= c <= 'z') || ('A' <= c <= 'Z') || ('0' <= c <= '9') || c == '#'
}

/// Scan an entity name after `&`, `name` holding what was read so far: it
/// ends at `;` (consumed, the entity is closed), at a character that cannot
/// be part of a name, or once the name is longer than eight characters.
/// Returns the name, whether it was closed, and the rest.
pub open spec fn entity_scan(s: Seq<char>, name: Seq<char>) -> (Seq<char>, bool, Seq<char>)
    decreases s.len(),
{
    if s.len() == 0 {
        (name, false, s)
    } else if s[0] == ';' {
        (name, true, s.drop_first())
    } else if !entity_char(s[0]) || name.len() > 8 {
        (name, false, s)
    } else {
        entity_scan(s.drop_first(), name.push(s[0]))
    }
}

pub proof fn lemma_entity_scan_len(s: Seq<char>, name: Seq<char>)
    ensures
        entity_scan(s, name).2.len() <= s.len(),
    decreases s.len(),
{
    if s.len() > 0 && s[0] != ';' && entity_char(s[0]) && name.len() <= 8 {
        lemma_entity_scan_len(s.drop_first(), name.push(s[0]));
    }
}

/// What an entity stands for: the WebVTT set decoded, the bidi marks dropped,
/// anything else kept as literal text.
pub open spec fn entity_text(name: Seq<char>, closed: bool) -> Seq<char> {
    if closed && name == seq!['a', 'm', 'p'] {
        seq!['&']
    } else if closed && name == seq!['l', 't'] {
        seq!['<']
    } else if closed && name == seq!['g', 't'] {
        seq!['>']
    } else if closed && name == seq!['q', 'u', 'o', 't'] {
        seq!['"']
    } else if closed && name == seq!['a', 'p', 'o', 's'] {
        seq!['\'']
    } else if closed && name == seq!['n', 'b', 's', 'p'] {
        seq![' ']
    } else if closed && (name == seq!['l', 'r', 'm'] || name == seq!['r', 'l', 'm']) {
        Seq::empty()
    } else {
        seq!['&'] + name + if closed {
            seq![';']
        } else {
            Seq::empty()
        }
    }
}

/// Caption text with markup removed: `<…>` tags and `{\…}` override blocks
/// dropped through their closing character, entities decoded.
pub open spec fn strip(s: Seq<char>) -> Seq<char>
    decreases s.len(),
{
    if s.len() == 0 {
        s
    } else if s[0] == '<' {
        proof {
            lemma_skip_past_len(s.drop_first(), '>');
        }
        strip(skip_past(s.drop_first(), '>'))
    } else if s[0] == '{' && s.len() > 1 && s[1] == '\\' {
        proof {
            lemma_skip_past_len(s.drop_first(), '}');
        }
        strip(skip_past(s.drop_first(), '}'))
    } else if s[0] == '&' {
        proof {
            lemma_entity_scan_len(s.drop_first(), Seq::empty());
        }
        entity_text(entity_scan(s.drop_first(), Seq::empty()).0, entity_scan(s.drop_first(), Seq::empty()).1)
            + strip(entity_scan(s.drop_first(), Seq::empty()).2)
    } else {
        seq![s[0]] + strip(s.drop_first())
    }
}

/// Text with no markup in it: no tag, no override block, and every `&`
/// bare, followed by nothing or by a character that cannot start an entity
/// name or end one.
pub open spec fn plain_text(s: Seq<char>) -> bool {
    forall|i: int|
        0 <= i < s.len() ==> {
            &&& #[trigger] s[i] != '<'
            &&& !(s[i] == '{' && i + 1 < s.len() && s[i + 1] == '\\')
            &&& (s[i] == '&' ==> i + 1 == s.len() || (!entity_char(s[i + 1]) && s[i + 1] != ';'))
        }
}

/// Stripping leaves text without markup exactly as it was: a bare
/// ampersand is not an entity and survives verbatim.
pub proof fn lemma_plain_text_is_kept(s: Seq<char>)
    requires
        plain_text(s),
    ensures
        strip(s) == s,
    decreases s.len(),
{
    if s.len() > 0 {
        let rest = s.drop_first();
        assert(plain_text(rest)) by {
            assert forall|i: int| 0 <= i < rest.len() implies {
                &&& #[trigger] rest[i] != '<'
                &&& !(rest[i] == '{' && i + 1 < rest.len() && rest[i + 1] == '\\')
                &&& (rest[i] == '&' ==> i + 1 == rest.len() || (!entity_char(rest[i + 1]) && rest[i + 1] != ';'))
            } by {
                assert(rest[i] == s[i + 1]);
                if i + 1 < rest.len() {
                    assert(rest[i + 1] == s[i + 2]);
                }
            }
        }
        lemma_plain_text_is_kept(rest);
        assert(s[0] != '<');
        if s[0] == '&' {
            if rest.len() > 0 {
                assert(rest[0] == s[1]);
            }
            assert(entity_scan(rest, Seq::empty()) == (Seq::<char>::empty(), false, rest));
            assert(entity_text(Seq::empty(), false) =~= seq!['&']);
        } else if s[0] == '{' && s.len() > 1 {
            assert(s[1] != '\\');
        }
        assert(strip(s) =~= s);
    }
}

/// Skip past the first `c` at or after `i`: returns the index just after it,
/// or the length where there is none.
fn skip_to_after(cs: &Vec<char>, i: usize, c: char) -> (j: usize)
    requires
        i <= cs@.len(),
    ensures
        i <= j <= cs@.len(),
        cs@.subrange(j as int, cs@.len() as int) == skip_past(cs@.subrange(i as int, cs@.len() as int), c),
{
    let n = cs.len();
    let mut k: usize = i;
    while k < n && cs[k] != c
        invariant
            n == cs@.len(),
            i <= k <= n,
            skip_past(cs@.subrange(k as int, n as int), c) == skip_past(cs@.subrange(i as int, n as int), c),
        decreases n - k,
    {
        proof {
            assert(cs@.subrange(k as int, n as int).drop_first() =~= cs@.subrange(k + 1, n as int));
        }
        k = k + 1;
    }
    if k < n {
        proof {
            assert(cs@.subrange(k as int, n as int).drop_first() =~= cs@.subrange(k + 1, n as int));
        }
        k + 1
    } else {
        proof {
            assert(cs@.subrange(k as int, n as int) =~= Seq::<char>::empty());
        }
        k
    }
}

/// Append the text an entity stands for.
fn push_entity(out: &mut String, name: &Vec<char>, closed: bool)
    ensures
        final(out)@ == old(out)@ + entity_text(name@, closed),
{
    let amp = ['a', 'm', 'p'];
    let lt = ['l', 't'];
    let gt = ['g', 't'];
    let quot = ['q', 'u', 'o', 't'];
    let apos = ['a', 'p', 'o', 's'];
    let nbsp = ['n', 'b', 's', 'p'];
    let lrm = ['l', 'r', 'm'];
    let rlm = ['r', 'l', 'm'];
    proof {
        assert(amp@ =~= seq!['a', 'm', 'p']);
        assert(lt@ =~= seq!['l', 't']);
        assert(gt@ =~= seq!['g', 't']);
        assert(quot@ =~= seq!['q', 'u', 'o', 't']);
        assert(apos@ =~= seq!['a', 'p', 'o', 's']);
        assert(nbsp@ =~= seq!['n', 'b', 's', 'p']);
        assert(lrm@ =~= seq!['l', 'r', 'm']);
        assert(rlm@ =~= seq!['r', 'l', 'm']);
    }
    let ghost start = out@;
    if closed && spells(name, &amp) {
        out.push('&');
    } else if closed && spells(name, &lt) {
        out.push('<');
    } else if closed && spells(name, &gt) {
        out.push('>');
    } else if closed && spells(name, &quot) {
        out.push('"');
    } else if closed && spells(name, &apos) {
        out.push('\'');
    } else if closed && spells(name, &nbsp) {
        out.push(' ');
    } else if closed && (spells(name, &lrm) || spells(name, &rlm)) {
    } else {
        out.push('&');
        let mut i: usize = 0;
        while i < name.len()
            invariant
                i <= name@.len(),
                out@ == start + seq!['&'] + name@.subrange(0, i as int),
            decreases name@.len() - i,
        {
            out.push(name[i]);
            i = i + 1;
            proof {
                assert(name@.subrange(0, i as int) =~= name@.subrange(0, i - 1).push(name@[i - 1]));
            }
        }
        if closed {
            out.push(';');
        }
        proof {
            assert(name@.subrange(0, i as int) =~= name@);
        }
    }
    proof {
        assert(out@ =~= start + entity_text(name@, closed));
    }
}

/// Remove inline caption markup and decode the entity set WebVTT defines.
///
/// Strips WebVTT/SubRip tags (`<i>`, `<c.yellow>`, `<v Bob>`,
/// `<00:00:01.000>`), ASS-style overrides (`{\an8}`), and decodes `&amp;`,
/// `&lt;`, `&gt;`, `&quot;`, `&apos;`, `&nbsp;`; `&lrm;` and `&rlm;` are
/// dropped. A bare `&` is literal text.
pub fn strip_markup(text: &str) -> (out: String)
    ensures
        out@ == strip(text@),
{
    let cs = chars_of(text);
    let n = cs.len();
    let mut out = String::new();
    let mut i: usize = 0;
    proof {
        assert(cs@.subrange(0, n as int) =~= cs@);
        assert(out@ + strip(cs@) =~= strip(cs@));
    }
    while i < n
        invariant
            n == cs@.len(),
            cs@ == text@,
            i <= n,
            out@ + strip(cs@.subrange(i as int, n as int)) == strip(cs@),
        decreases n - i,
    {
        let ghost rest = cs@.subrange(i as int, n as int);
        let ghost before = out@;
        proof {
            assert(rest.drop_first() =~= cs@.subrange(i + 1, n as int));
        }
        let c = cs[i];
        if c == '<' {
            i = skip_to_after(&cs, i + 1, '>');
        } else if c == '{' && i + 1 < n && cs[i + 1] == '\\' {
            i = skip_to_after(&cs, i + 1, '}');
        } else if c == '&' {
            let (name, closed, j) = scan_entity(&cs, i + 1);
            push_entity(&mut out, &name, closed);
            i = j;
        } else {
            out.push(c);
            i = i + 1;
        }
        proof {
            assert(out@ + strip(cs@.subrange(i as int, n as int)) =~= before + strip(rest));
        }
    }
    proof {
        assert(cs@.subrange(n as int, n as int) =~= Seq::<char>::empty());
        assert(out@ =~= out@ + Seq::<char>::empty());
    }
    out
}

/// Read an entity name starting at `i`: the name, whether `;` closed it, and
/// where the text resumes.
fn scan_entity(cs: &Vec<char>, i: usize) -> (res: (Vec<char>, bool, usize))
    requires
        i <= cs@.len(),
    ensures
        i <= res.2 <= cs@.len(),
        entity_scan(cs@.subrange(i as int, cs@.len() as int), Seq::empty()) == (
            res.0@,
            res.1,
            cs@.subrange(res.2 as int, cs@.len() as int),
        ),
{
    let n = cs.len();
    let mut name: Vec<char> = Vec::new();
    let mut j: usize = i;
    proof {
        assert(name@ =~= Seq::<char>::empty());
    }
    while j < n
        invariant
            n == cs@.len(),
            i <= j <= n,
            entity_scan(cs@.subrange(j as int, n as int), name@) == entity_scan(
                cs@.subrange(i as int, n as int),
                Seq::empty(),
            ),
        decreases n - j,
    {
        let t = cs[j];
        proof {
            assert(cs@.subrange(j as int, n as int).drop_first() =~= cs@.subrange(j + 1, n as int));
        }
        if t == ';' {
            return (name, true, j + 1);
        }
        let word = ('a' <= t && t <= 'z') || ('A' <= t && t <= 'Z') || ('0' <= t && t <= '9') || t == '#';
        if !word || name.len() > 8 {
            return (name, false, j);
        }
        name.push(t);
        j = j + 1;
    }
    proof {
        assert(cs@.subrange(j as int, n as int) =~= Seq::<char>::empty());
    }
    (name, false, j)
}

/// The primary subtag of a language tag: everything before the first `-` or
/// `_`.
pub open spec fn primary_subtag(s: Seq<char>) -> Seq<char>
    decreases s.len(),
{
    if s.len() == 0 || s[0] == '-' || s[0] == '_' {
        Seq::empty()
    } else {
        seq![s[0]] + primary_subtag(s.drop_first())
    }
}

/// The primary subtag is the prefix up to the first separator.
proof fn lemma_primary_subtag(s: Seq<char>, k: int)
    requires
        0 <= k <= s.len(),
        forall|j: int| 0 <= j < k ==> s[j] != '-' && s[j] != '_',
        k == s.len() || s[k] == '-' || s[k] == '_',
    ensures
        primary_subtag(s) == s.subrange(0, k),
    decreases s.len(),
{
    if k == 0 {
        assert(s.subrange(0, 0) =~= Seq::<char>::empty());
    } else {
        lemma_primary_subtag(s.drop_first(), k - 1);
        assert(s.subrange(0, k) =~= seq![s[0]] + s.drop_first().subrange(0, k - 1));
    }
}

/// ISO 639-1 two-letter codes and their ISO 639-2/T three-letter forms:
/// `[a, b, x, y, z]` maps `ab` to `xyz`.
pub const ISO639_PAIRS: [[u8; 5]; 78] = [
    [97, 97, 97, 97, 114], // aa -> aar
    [97, 98, 97, 98, 107], // ab -> abk
    [97, 102, 97, 102, 114], // af -> afr
    [97, 109, 97, 109, 104], // am -> amh
    [97, 114, 97, 114, 97], // ar -> ara
    [97, 122, 97, 122, 101], // az -> aze
    [98, 101, 98, 101, 108], // be -> bel
    [98, 103, 98, 117, 108], // bg -> bul
    [98, 110, 98, 101, 110], // bn -> ben
    [98, 115, 98, 111, 115], // bs -> bos
    [99, 97, 99, 97, 116], // ca -> cat
    [99, 115, 99, 101, 115], // cs -> ces
    [99, 121, 99, 121, 109], // cy -> cym
    [100, 97, 100, 97, 110], // da -> dan
    [100, 101, 100, 101, 117], // de -> deu
    [101, 108, 101, 108, 108], // el -> ell
    [101, 110, 101, 110, 103], // en -> eng
    [101, 111, 101, 112, 111], // eo -> epo
    [101, 115, 115, 112, 97], // es -> spa
    [101, 116, 101, 115, 116], // et -> est
    [101, 117, 101, 117, 115], // eu -> eus
    [102, 97, 102, 97, 115], // fa -> fas
    [102, 105, 102, 105, 110], // fi -> fin
    [102, 114, 102, 114, 97], // fr -> fra
    [103, 97, 103, 108, 101], // ga -> gle
    [103, 108, 103, 108, 103], // gl -> glg
    [104, 101, 104, 101, 98], // he -> heb
    [104, 105, 104, 105, 110], // hi -> hin
    [104, 114, 104, 114, 118], // hr -> hrv
    [104, 117, 104, 117, 110], // hu -> hun
    [104, 121, 104, 121, 101], // hy -> hye
    [105, 100, 105, 110, 100], // id -> ind
    [105, 115, 105, 115, 108], // is -> isl
    [105, 116, 105, 116, 97], // it -> ita
    [106, 97, 106, 112, 110], // ja -> jpn
    [107, 97, 107, 97, 116], // ka -> kat
    [107, 107, 107, 97, 122], // kk -> kaz
    [107, 109, 107, 104, 109], // km -> khm
    [107, 110, 107, 97, 110], // kn -> kan
    [107, 111, 107, 111, 114], // ko -> kor
    [108, 116, 108, 105, 116], // lt -> lit
    [108, 118, 108, 97, 118], // lv -> lav
    [109, 107, 109, 107, 100], // mk -> mkd
    [109, 108, 109, 97, 108], // ml -> mal
    [109, 110, 109, 111, 110], // mn -> mon
    [109, 114, 109, 97, 114], // mr -> mar
    [109, 115, 109, 115, 97], // ms -> msa
    [109, 116, 109, 108, 116], // mt -> mlt
    [109, 121, 109, 121, 97], // my -> mya
    [110, 98, 110, 111, 98], // nb -> nob
    [110, 101, 110, 101, 112], // ne -> nep
    [110, 108, 110, 108, 100], // nl -> nld
    [110, 110, 110, 110, 111], // nn -> nno
    [110, 111, 110, 111, 114], // no -> nor
    [112, 97, 112, 97, 110], // pa -> pan
    [112, 108, 112, 111, 108], // pl -> pol
    [112, 115, 112, 117, 115], // ps -> pus
    [112, 116, 112, 111, 114], // pt -> por
    [114, 111, 114, 111, 110], // ro -> ron
    [114, 117, 114, 117, 115], // ru -> rus
    [115, 105, 115, 105, 110], // si -> sin
    [115, 107, 115, 108, 107], // sk -> slk
    [115, 108, 115, 108, 118], // sl -> slv
    [115, 113, 115, 113, 105], // sq -> sqi
    [115, 114, 115, 114, 112], // sr -> srp
    [115, 118, 115, 119, 101], // sv -> swe
    [115, 119, 115, 119, 97], // sw -> swa
    [116, 97, 116, 97, 109], // ta -> tam
    [116, 101, 116, 101, 108], // te -> tel
    [116, 104, 116, 104, 97], // th -> tha
    [116, 108, 116, 103, 108], // tl -> tgl
    [116, 114, 116, 117, 114], // tr -> tur
    [117, 107, 117, 107, 114], // uk -> ukr
    [117, 114, 117, 114, 100], // ur -> urd
    [117, 122, 117, 122, 98], // uz -> uzb
    [118, 105, 118, 105, 101], // vi -> vie
    [122, 104, 122, 104, 111], // zh -> zho
    [122, 117, 122, 117, 108], // zu -> zul
];

/// The first row of [`ISO639_PAIRS`] at or after `i` whose two-letter code
/// is `(a, b)`, if any.
pub open spec fn find_pair(a: int, b: int, i: int) -> Option<int>
    decreases 78 - i,
{
    if i < 0 || i >= 78 {
        None
    } else if ISO639_PAIRS[i][0] as int == a && ISO639_PAIRS[i][1] as int == b {
        Some(i)
    } else {
        find_pair(a, b, i + 1)
    }
}

/// Whether a character is an ASCII letter.
pub open spec fn is_ascii_letter(c: char) -> bool {
    ('a' <= c <= 'z') || ('A' <= c <= 'Z')
}

/// The ISO-639-2/T code for a language tag: a primary subtag of three ASCII
/// letters passes through lower-cased, a known two-letter one is mapped,
/// anything else is `und`.
pub open spec fn spec_iso639_2(language: Seq<char>) -> Seq<u8> {
    let p = primary_subtag(language).map_values(|c: char| to_lower(c));
    if p.len() == 3 && is_ascii_letter(p[0]) && is_ascii_letter(p[1]) && is_ascii_letter(p[2]) {
        seq![p[0] as u8, p[1] as u8, p[2] as u8]
    } else if p.len() == 2 && find_pair(p[0] as int, p[1] as int, 0) is Some {
        let r = find_pair(p[0] as int, p[1] as int, 0)->0;
        seq![ISO639_PAIRS[r][2], ISO639_PAIRS[r][3], ISO639_PAIRS[r][4]]
    } else {
        seq![117u8, 110u8, 100u8]
    }
}

/// Best-effort ISO-639-2/T three-letter language code for a BCP-47 tag, as MP4
/// (`mdhd.language`) and Matroska (`Language`) both want.
///
/// Three-letter tags pass through, common two-letter tags are mapped, and
/// anything unrecognized becomes `und` (undetermined).
pub fn iso639_2(language: &str) -> (code: [u8; 3])
    ensures
        code@ == spec_iso639_2(language@),
{
    let cs = chars_of(language);
    let n = cs.len();
    let mut p: Vec<char> = Vec::new();
    let mut i: usize = 0;
    while i < n && cs[i] != '-' && cs[i] != '_'
        invariant
            n == cs@.len(),
            i <= n,
            forall|j: int| 0 <= j < i ==> cs@[j] != '-' && cs@[j] != '_',
            p@ == cs@.subrange(0, i as int).map_values(|c: char| to_lower(c)),
        decreases n - i,
    {
        p.push(lower_char(cs[i]));
        i = i + 1;
        proof {
            assert(p@ =~= cs@.subrange(0, i as int).map_values(|c: char| to_lower(c)));
        }
    }
    proof {
        lemma_primary_subtag(cs@, i as int);
    }
    let ghost lp = primary_subtag(language@).map_values(|c: char| to_lower(c));
    assert(p@ == lp);
    let letter = |c: char| -> (b: bool)
        ensures
            b == is_ascii_letter(c),
        { ('a' <= c && c <= 'z') || ('A' <= c && c <= 'Z') };
    if p.len() == 3 && letter(p[0]) && letter(p[1]) && letter(p[2]) {
        let code = [p[0] as u8, p[1] as u8, p[2] as u8];
        proof {
            assert(code@ =~= seq![p@[0] as u8, p@[1] as u8, p@[2] as u8]);
        }
        return code;
    }
    if p.len() == 2 {
        let a = p[0] as u32;
        let b = p[1] as u32;
        let mut r: usize = 0;
        while r < 78
            invariant
                r <= 78,
                p@ == lp,
                lp == primary_subtag(language@).map_values(|c: char| to_lower(c)),
                p@.len() == 2,
                a == p@[0] as u32,
                b == p@[1] as u32,
                find_pair(a as int, b as int, r as int) == find_pair(a as int, b as int, 0),
            decreases 78 - r,
        {
            if ISO639_PAIRS[r][0] as u32 == a && ISO639_PAIRS[r][1] as u32 == b {
                let code = [ISO639_PAIRS[r][2], ISO639_PAIRS[r][3], ISO639_PAIRS[r][4]];
                proof {
                    assert(find_pair(a as int, b as int, 0) == Some(r as int));
                    assert(code@ =~= seq![ISO639_PAIRS[r as int][2], ISO639_PAIRS[r as int][3], ISO639_PAIRS[r as int][4]]);
                }
                return code;
            }
            r = r + 1;
        }
    }
    // "und": undetermined.
    let code: [u8; 3] = [117, 110, 100];
    proof {
        assert(code@ =~= seq![117u8, 110u8, 100u8]);
    }
    code
}

} // verus!
