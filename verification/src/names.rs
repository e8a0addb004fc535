//! File and scene names: sanitizing, collision-free stems, URI escapes and texture references.

use vstd::prelude::*;
use vstd::utf8::*;
use crate::text;

verus! {

/// Whether a character is an ASCII letter or digit.
pub open spec fn ascii_alphanumeric(c: char) -> bool {
    ||| '0' <= c <= '9'
    ||| 'a' <= c <= 'z'
    ||| 'A' <= c <= 'Z'
}

/// Whether a character may stand in a file name as it is.
pub open spec fn file_safe(c: char) -> bool {
    ascii_alphanumeric(c) || c == '_' || c == '-'
}

/// A name with every character that is not file-safe written as `_`.
pub open spec fn underscored(s: Seq<char>) -> Seq<char> {
    s.map_values(|c: char| if file_safe(c) { c } else { '_' })
}

/// Tests whether a character is an ASCII letter or digit.
pub fn is_alphanumeric(c: char) -> (r: bool)
    ensures
        r == ascii_alphanumeric(c),
{
    ('0' <= c && c <= '9') || ('a' <= c && c <= 'z') || ('A' <= c && c <= 'Z')
}

/// Writes every character that is not file-safe as `_`.
fn underscore(name: &str) -> (r: String)
    ensures
        r@ == underscored(name@),
{
    let chars = text::chars_of(name);
    let mut out = String::new();
    for i in 0..chars.len()
        invariant
            chars@ == name@,
            out@ == underscored(name@).take(i as int),
    {
        let c = chars[i];
        if is_alphanumeric(c) || c == '_' || c == '-' {
            out.push(c);
        } else {
            out.push('_');
        }
        assert(out@ =~= underscored(name@).take(i + 1));
    }
    assert(underscored(name@).take(name@.len() as int) =~= underscored(name@));
    out
}

/// A name made safe for a file: [`underscored`], or `mesh` where it is empty.
pub open spec fn sanitized(name: Seq<char>) -> Seq<char> {
    if name.len() == 0 {
        "mesh"@
    } else {
        underscored(name)
    }
}

/// Make an object name safe for a filename.
pub fn sanitize(name: &str) -> (r: String)
    ensures
        r@ == sanitized(name@),
{
    if name.is_empty() {
        "mesh".to_owned()
    } else {
        underscore(name)
    }
}

/// Sanitizing a sanitized name changes nothing.
pub proof fn sanitize_is_idempotent(name: Seq<char>)
    ensures
        sanitized(sanitized(name)) == sanitized(name),
{
    reveal_strlit("mesh");
    assert(sanitized(sanitized(name)) =~= sanitized(name));
}

/// A sanitized name is never empty and holds file-safe characters only.
pub proof fn sanitized_is_safe(name: Seq<char>)
    ensures
        sanitized(name).len() > 0,
        forall|i: int| 0 <= i < sanitized(name).len() ==> file_safe(#[trigger] sanitized(name)[i]),
{
    reveal_strlit("mesh");
}

/// What follows the last `/` or `\` of a path.
pub open spec fn last_component(s: Seq<char>) -> Seq<char>
    decreases s.len(),
{
    if s.len() == 0 || s.last() == '/' || s.last() == '\\' {
        seq![]
    } else {
        last_component(s.drop_last()).push(s.last())
    }
}

/// Last path component of a texture reference, which may use `\` separators.
pub fn basename(tex: &str) -> (r: &str)
    ensures
        r@ == last_component(tex@),
{
    let chars = text::chars_of(tex);
    let mut i: usize = chars.len();
    assert(last_component(tex@) =~= last_component(tex@.take(i as int)) + tex@.skip(i as int)) by {
        assert(tex@.take(i as int) =~= tex@);
    }
    while i > 0 && chars[i - 1] != '/' && chars[i - 1] != '\\'
        invariant
            chars@ == tex@,
            i <= chars@.len(),
            last_component(tex@) == last_component(tex@.take(i as int)) + tex@.skip(i as int),
        decreases i,
    {
        let ghost t = tex@.take(i as int);
        assert(t.drop_last() =~= tex@.take(i - 1));
        assert(last_component(tex@) =~= last_component(tex@.take(i - 1)) + tex@.skip(i - 1));
        i = i - 1;
    }
    let r = tex.substring_char(i, chars.len());
    assert(last_component(tex@.take(i as int)) =~= Seq::<char>::empty());
    assert(r@ =~= last_component(tex@));
    r
}

/// Whether a displacement map's file name denotes a raw height map: every name does, but for one
/// that says it is inverted already.
pub fn looks_like_height_name(filename: &str) -> (r: bool)
    ensures
        r == !text::contains_text(text::lowercased(filename@), "inv"@),
{
    !text::contains(text::to_lower(filename).as_str(), "inv")
}

/// Whether the displacement map at `i` belongs to a texture whose lowercase base name is `stem`:
/// its key is not empty and the name begins with it.
pub open spec fn displacement_fits(stem: Seq<char>, maps: Seq<(String, String)>, i: int) -> bool {
    &&& 0 <= i < maps.len()
    &&& maps[i].0@.len() > 0
    &&& text::begins_with(stem, maps[i].0@)
}

/// The length of a displacement key, in bytes of UTF-8.
pub open spec fn key_len(maps: Seq<(String, String)>, i: int) -> nat {
    encode_utf8(maps[i].0@).len()
}

/// Whether the map at `i` is the one for `stem`: it fits, none that fits has a longer key, and
/// none with a key as long follows it.
pub open spec fn best_displacement(stem: Seq<char>, maps: Seq<(String, String)>, i: int) -> bool {
    &&& displacement_fits(stem, maps, i)
    &&& forall|j: int| #[trigger]
        displacement_fits(stem, maps, j) ==> key_len(maps, j) <= key_len(maps, i) && (j > i
            ==> key_len(maps, j) < key_len(maps, i))
}

/// The best displacement map for a lowercase base name, as an index.
pub fn find_displacement(stem: &str, maps: &[(String, String)]) -> (r: Option<usize>)
    ensures
        match r {
            Some(i) => best_displacement(stem@, maps@, i as int),
            None => forall|j: int| !displacement_fits(stem@, maps@, j),
        },
{
    let mut best: Option<usize> = None;
    for i in 0..maps.len()
        invariant
            match best {
                Some(b) => b < i && displacement_fits(stem@, maps@, b as int) && forall|j: int|
                    j < i && #[trigger] displacement_fits(stem@, maps@, j) ==> key_len(maps@, j)
                        <= key_len(maps@, b as int) && (j > b ==> key_len(maps@, j) < key_len(
                        maps@,
                        b as int,
                    )),
                None => forall|j: int| j < i ==> !displacement_fits(stem@, maps@, j),
            },
    {
        let key = maps[i].0.as_str();
        if !key.is_empty() && text::starts_with(stem, key) {
            let take = match best {
                None => true,
                Some(b) => maps[b].0.as_str().as_bytes().len() <= key.as_bytes().len(),
            };
            if take {
                best = Some(i);
            }
        }
    }
    best
}

/// The displacement map (if any) whose base key begins this diffuse texture's name. `maps` holds
/// `(base_key, filename)` pairs; the longest base wins (most specific).
pub fn match_displacement<'a>(diffuse: &str, maps: &'a [(String, String)]) -> (r: Option<&'a str>)
    ensures
        match r {
            Some(file) => exists|i: int|
                #![trigger maps@[i]]
                best_displacement(text::lowercased(last_component(diffuse@)), maps@, i)
                    && file@ == maps@[i].1@,
            None => forall|j: int|
                !displacement_fits(text::lowercased(last_component(diffuse@)), maps@, j),
        },
{
    let stem = text::to_lower(basename(diffuse));
    match find_displacement(stem.as_str(), maps) {
        Some(i) => {
            let file = maps[i].1.as_str();
            assert(file@ == maps@[i as int].1@);
            Some(file)
        },
        None => None,
    }
}

/// The file extension for an image's media type.
pub open spec fn extension_for(mime: Seq<char>) -> Seq<char> {
    if text::contains_text(mime, "png"@) {
        "png"@
    } else if text::contains_text(mime, "jpeg"@) || text::contains_text(mime, "jpg"@) {
        "jpg"@
    } else if text::contains_text(mime, "ktx"@) {
        "ktx2"@
    } else {
        "bin"@
    }
}

/// The file extension for an image's media type; `bin` for one that is not known.
pub fn ext_for_mime(mime: &str) -> (r: &'static str)
    ensures
        r@ == extension_for(mime@),
{
    if text::contains(mime, "png") {
        "png"
    } else if text::contains(mime, "jpeg") || text::contains(mime, "jpg") {
        "jpg"
    } else if text::contains(mime, "ktx") {
        "ktx2"
    } else {
        "bin"
    }
}

/// The `n`-th name to try: `base` and `tail`, with `_n` between them from the second on.
pub open spec fn numbered(base: Seq<char>, tail: Seq<char>, n: nat) -> Seq<char> {
    if n == 0 {
        base + tail
    } else {
        base + seq!['_'] + text::decimal(n) + tail
    }
}

/// Whether the `n`-th name is the first that `used` does not hold.
pub open spec fn first_free(
    base: Seq<char>,
    tail: Seq<char>,
    used: Seq<Seq<char>>,
    n: nat,
) -> bool {
    &&& !used.contains(numbered(base, tail, n))
    &&& forall|m: nat| m < n ==> used.contains(#[trigger] numbered(base, tail, m))
}

/// The names to try are all different, where the tail does not begin with `_`.
proof fn lemma_numbered_differ(base: Seq<char>, tail: Seq<char>, a: nat, b: nat)
    requires
        a < b,
        tail.len() == 0 || tail[0] != '_',
    ensures
        numbered(base, tail, a) != numbered(base, tail, b),
{
    let x = numbered(base, tail, a);
    let y = numbered(base, tail, b);
    if a == 0 {
        if tail.len() == 0 {
            assert(y.len() > x.len());
        } else {
            assert(x[base.len() as int] == tail[0]);
            assert(y[base.len() as int] == '_');
        }
    } else if x == y {
        let da = text::decimal(a);
        let db = text::decimal(b);
        assert(x.len() == base.len() + 1 + da.len() + tail.len());
        assert(y.len() == base.len() + 1 + db.len() + tail.len());
        assert forall|i: int| 0 <= i < da.len() implies da[i] == db[i] by {
            assert(x[base.len() + 1 + i] == da[i]);
            assert(y[base.len() + 1 + i] == db[i]);
        }
        assert(da =~= db);
        text::decimal_is_injective(a, b);
    }
}

/// As many different names as `n` are used only where `used` holds as many.
proof fn lemma_used_bound(base: Seq<char>, tail: Seq<char>, used: Seq<Seq<char>>, n: nat)
    requires
        tail.len() == 0 || tail[0] != '_',
        forall|m: nat| m < n ==> used.contains(#[trigger] numbered(base, tail, m)),
    ensures
        n <= used.len(),
{
    let tried = Seq::new(n, |i: int| numbered(base, tail, i as nat));
    assert(tried.no_duplicates()) by {
        assert forall|i: int, j: int| 0 <= i < j < n implies tried[i] != tried[j] by {
            lemma_numbered_differ(base, tail, i as nat, j as nat);
        }
    }
    tried.unique_seq_to_set();
    used.lemma_cardinality_of_set();
    assert(tried.to_set().subset_of(used.to_set())) by {
        assert forall|x: Seq<char>| tried.to_set().contains(x) implies used.to_set().contains(
            x,
        ) by {
            let i = choose|i: int| 0 <= i < tried.len() && tried[i] == x;
            assert(used.contains(numbered(base, tail, i as nat)));
        }
    }
    vstd::seq_lib::seq_to_set_is_finite(used);
    vstd::set_lib::lemma_len_subset(tried.to_set(), used.to_set());
}

/// Takes the first free name for `base` and `tail`, and marks it used.
pub(crate) fn claim_name(base: &str, tail: &str, used: &mut Vec<String>) -> (r: String)
    requires
        tail@.len() == 0 || tail@[0] != '_',
    ensures
        exists|n: nat| #[trigger]
            first_free(base@, tail@, text::texts(old(used)@), n) && r@ == numbered(base@, tail@, n),
        text::texts(final(used)@) == text::texts(old(used)@).push(r@),
{
    let ghost held = text::texts(used@);
    let mut n: u64 = 0;
    let mut name = base.to_owned();
    name.append(tail);
    while text::list_contains(used, name.as_str())
        invariant
            tail@.len() == 0 || tail@[0] != '_',
            held == text::texts(used@),
            used@ == old(used)@,
            name@ == numbered(base@, tail@, n as nat),
            forall|m: nat| m < n ==> held.contains(#[trigger] numbered(base@, tail@, m)),
        decreases held.len() - n,
    {
        proof {
            lemma_used_bound(base@, tail@, held, (n + 1) as nat);
            assert(held.len() == used.len());
        }
        n = n + 1;
        name = base.to_owned();
        name.push('_');
        text::push_decimal(&mut name, n);
        name.append(tail);
        assert(name@ =~= numbered(base@, tail@, n as nat));
    }
    assert(first_free(base@, tail@, held, n as nat));
    used.push(name.clone());
    assert(text::texts(used@) =~= held.push(name@));
    name
}

/// The stem of an extracted image: its sanitized name, or `image_<idx>` where it has none.
pub open spec fn image_stem(name: Option<Seq<char>>, idx: nat) -> Seq<char> {
    match name {
        Some(s) if s.len() > 0 => underscored(s),
        _ => "image_"@ + text::decimal(idx),
    }
}

/// The characters of an optional string.
pub open spec fn optional(s: Option<&str>) -> Option<Seq<char>> {
    match s {
        Some(t) => Some(t@),
        None => None,
    }
}

/// A filesystem-safe, collision-free filename for an extracted image.
pub fn unique_name(name: Option<&str>, idx: usize, ext: &str, used: &mut Vec<String>) -> (r: String)
    ensures
        exists|n: nat| #[trigger]
            first_free(
                image_stem(optional(name), idx as nat),
                seq!['.'] + ext@,
                text::texts(old(used)@),
                n,
            ) && r@ == numbered(image_stem(optional(name), idx as nat), seq!['.'] + ext@, n),
        text::texts(final(used)@) == text::texts(old(used)@).push(r@),
{
    let mut stem = String::new();
    if let Some(s) = name {
        stem = underscore(s);
    }
    if stem.as_str().is_empty() {
        stem = "image_".to_owned();
        text::push_decimal(&mut stem, idx as u64);
    }
    assert(stem@ == image_stem(optional(name), idx as nat));
    let mut tail = String::new();
    tail.push('.');
    tail.append(ext);
    assert(tail@ =~= seq!['.'] + ext@);
    claim_name(stem.as_str(), tail.as_str(), used)
}

/// The name of a group before it is made unique: the node's name without `_grp` at its end,
/// sanitized; `group_<index>` where that leaves nothing.
pub open spec fn group_base(name: Option<Seq<char>>, index: nat) -> Seq<char> {
    let raw = match name {
        Some(s) => text::without_suffix(s, "_grp"@),
        None => seq![],
    };
    if raw.len() == 0 {
        "group_"@ + text::decimal(index)
    } else {
        underscored(raw)
    }
}

/// Scene name + filename stem for a group node, made unique across the kit.
pub fn group_scene_name(name: Option<&str>, index: usize, used: &mut Vec<String>) -> (r: String)
    ensures
        exists|n: nat| #[trigger]
            first_free(
                group_base(optional(name), index as nat),
                seq![],
                text::texts(old(used)@),
                n,
            ) && r@ == numbered(group_base(optional(name), index as nat), seq![], n),
        text::texts(final(used)@) == text::texts(old(used)@).push(r@),
{
    let raw = match name {
        Some(s) => text::drop_suffix(s, "_grp"),
        None => String::new(),
    };
    proof {
        reveal_strlit("");
        assert(""@ =~= Seq::<char>::empty());
    }
    let mut base = underscore(raw.as_str());
    if raw.as_str().is_empty() {
        base = "group_".to_owned();
        text::push_decimal(&mut base, index as u64);
    }
    assert(base@ == group_base(optional(name), index as nat));
    let r = claim_name(base.as_str(), "", used);
    proof {
        let held = text::texts(old(used)@);
        let n = choose|n: nat| #[trigger]
            first_free(base@, ""@, held, n) && r@ == numbered(base@, ""@, n);
        assert(first_free(group_base(optional(name), index as nat), seq![], held, n));
    }
    r
}

/// A claimed name was not in use before, and is afterwards.
pub proof fn claimed_name_is_new(
    base: Seq<char>,
    tail: Seq<char>,
    used: Seq<Seq<char>>,
    n: nat,
)
    requires
        first_free(base, tail, used, n),
    ensures
        !used.contains(numbered(base, tail, n)),
        used.push(numbered(base, tail, n)).contains(numbered(base, tail, n)),
        used.no_duplicates() ==> used.push(numbered(base, tail, n)).no_duplicates(),
{
    let name = numbered(base, tail, n);
    assert(used.push(name)[used.len() as int] == name);
    if used.no_duplicates() {
        assert forall|i: int, j: int|
            0 <= i < used.len() + 1 && 0 <= j < used.len() + 1 && i != j implies used.push(name)[i]
            != used.push(name)[j] by {
            if i < used.len() && j < used.len() {
            } else if i < used.len() {
                assert(used.contains(used[i]));
            } else {
                assert(used.contains(used[j]));
            }
        }
    }
}

/// The value of a hexadecimal digit.
pub open spec fn hex_digit(b: u8) -> Option<u8> {
    if 48 <= b <= 57 {
        Some((b - 48) as u8)
    } else if 97 <= b <= 102 {
        Some((b - 87) as u8)
    } else if 65 <= b <= 70 {
        Some((b - 55) as u8)
    } else {
        None
    }
}

/// The byte that two characters of an escape stand for: two hexadecimal digits, or a plus sign
/// and one.
pub open spec fn hex_pair(a: u8, b: u8) -> Option<u8> {
    match (hex_digit(a), hex_digit(b)) {
        (Some(x), Some(y)) => Some((16 * x + y) as u8),
        (None, Some(y)) => if a == 43 {
            Some(y)
        } else {
            None
        },
        _ => None,
    }
}

fn hex_digit_of(b: u8) -> (r: Option<u8>)
    ensures
        r == hex_digit(b),
{
    if 48 <= b && b <= 57 {
        Some(b - 48)
    } else if 97 <= b && b <= 102 {
        Some(b - 87)
    } else if 65 <= b && b <= 70 {
        Some(b - 55)
    } else {
        None
    }
}

fn hex_pair_of(a: u8, b: u8) -> (r: Option<u8>)
    ensures
        r == hex_pair(a, b),
{
    match (hex_digit_of(a), hex_digit_of(b)) {
        (Some(x), Some(y)) => Some(16 * x + y),
        (None, Some(y)) => if a == 43 {
            Some(y)
        } else {
            None
        },
        _ => None,
    }
}

/// The bytes that a percent-escaped text stands for: each `%` with its two digits is one byte,
/// every other byte is itself.
pub open spec fn percent_decoded(b: Seq<u8>) -> Seq<u8>
    decreases b.len(),
{
    if b.len() == 0 {
        seq![]
    } else if b[0] == 37 && b.len() > 2 && hex_pair(b[1], b[2]) is Some {
        seq![hex_pair(b[1], b[2])->0] + percent_decoded(b.skip(3))
    } else {
        seq![b[0]] + percent_decoded(b.skip(1))
    }
}

/// Whether no escape would cut a character of the text in two.
pub open spec fn escapes_whole(b: Seq<u8>) -> bool {
    forall|i: int| 0 <= i && i + 2 < b.len() && #[trigger] b[i] == 37 ==> is_char_boundary(b, i + 3)
}

/// What `String::from_utf8_lossy` makes of bytes.
pub uninterp spec fn utf8_lossy(b: Seq<u8>) -> Seq<char>;

/// Calls `String::from_utf8_lossy`, whose result depends on the bytes alone; of well-formed UTF-8
/// it is the text that the bytes encode.
#[verifier::external_body]
fn from_utf8_lossy(b: &Vec<u8>) -> (r: String)
    ensures
        r@ == utf8_lossy(b@),
        valid_utf8(b@) ==> r@ == decode_utf8(b@),
{
    String::from_utf8_lossy(b).into_owned()
}

/// Minimal percent-decoding for image URIs (`%20` → space, etc.).
pub fn percent_decode(s: &str) -> (r: String)
    requires
        escapes_whole(encode_utf8(s@)),
    ensures
        r@ == utf8_lossy(percent_decoded(encode_utf8(s@))),
        valid_utf8(percent_decoded(encode_utf8(s@))) ==> r@ == decode_utf8(
            percent_decoded(encode_utf8(s@)),
        ),
{
    let bytes = s.as_bytes();
    let mut out: Vec<u8> = Vec::new();
    let mut i: usize = 0;
    assert(bytes@.skip(0) =~= bytes@);
    while i < bytes.len()
        invariant
            i <= bytes@.len(),
            percent_decoded(bytes@) == out@ + percent_decoded(bytes@.skip(i as int)),
        decreases bytes@.len() - i,
    {
        let ghost rest = bytes@.skip(i as int);
        assert(forall|k: int| 0 <= k < rest.len() ==> rest[k] == bytes@[i + k]);
        assert(rest.skip(1) =~= bytes@.skip(i + 1));
        assert(rest.len() > 2 ==> rest.skip(3) =~= bytes@.skip(i + 3));
        let ghost before = out@;
        let pair = if bytes[i] == 37 && bytes.len() - i > 2 {
            hex_pair_of(bytes[i + 1], bytes[i + 2])
        } else {
            None
        };
        match pair {
            Some(b) => {
                out.push(b);
                assert(before + percent_decoded(rest) =~= out@ + percent_decoded(rest.skip(3)));
                i = i + 3;
            },
            None => {
                out.push(bytes[i]);
                assert(before + percent_decoded(rest) =~= out@ + percent_decoded(rest.skip(1)));
                i = i + 1;
            },
        }
    }
    assert(bytes@.skip(i as int) =~= Seq::<u8>::empty());
    assert(out@ =~= percent_decoded(bytes@));
    from_utf8_lossy(&out)
}

/// A text without escapes decodes to itself.
pub proof fn plain_text_decodes_to_itself(b: Seq<u8>)
    requires
        forall|i: int| 0 <= i < b.len() ==> b[i] != 37,
    ensures
        percent_decoded(b) == b,
    decreases b.len(),
{
    if b.len() > 0 {
        plain_text_decodes_to_itself(b.skip(1));
        assert(percent_decoded(b) =~= b);
    }
}

/// What stands before the first `(` or `-`.
pub open spec fn before_noise(s: Seq<char>) -> Seq<char>
    decreases s.len(),
{
    if s.len() == 0 || s[0] == '(' || s[0] == '-' {
        seq![]
    } else {
        seq![s[0]] + before_noise(s.skip(1))
    }
}

/// A text without the underscores at its beginning.
pub open spec fn no_leading(s: Seq<char>) -> Seq<char>
    decreases s.len(),
{
    if s.len() > 0 && s[0] == '_' {
        no_leading(s.skip(1))
    } else {
        s
    }
}

/// A text without the underscores at its end.
pub open spec fn no_trailing(s: Seq<char>) -> Seq<char>
    decreases s.len(),
{
    if s.len() > 0 && s.last() == '_' {
        no_trailing(s.drop_last())
    } else {
        s
    }
}

/// A character of an image stem: letters, digits and `_` stand, anything else is written `_`.
pub open spec fn stem_char(c: char) -> char {
    if ascii_alphanumeric(c) || c == '_' {
        c
    } else {
        '_'
    }
}

/// The file-safe part of an image name: what stands before the first `(` or `-`, in stem
/// characters, without underscores (and so without blanks) at either end.
pub open spec fn safe_part(name: Seq<char>) -> Seq<char> {
    no_trailing(no_leading(before_noise(name).map_values(|c: char| stem_char(c))))
}

/// A filesystem-safe image stem: [`safe_part`], or `img<idx>` where nothing is left.
pub open spec fn safe_stem(name: Seq<char>, idx: nat) -> Seq<char> {
    if safe_part(name).len() == 0 {
        "img"@ + text::decimal(idx)
    } else {
        safe_part(name)
    }
}

/// A filesystem-safe image stem (image names carry spaces / duplicated suffixes).
pub fn safe(name: &str, idx: usize) -> (r: String)
    ensures
        r@ == safe_stem(name@, idx as nat),
{
    let chars = text::chars_of(name);
    let mut kept: Vec<char> = Vec::new();
    let ghost mapped = before_noise(name@).map_values(|c: char| stem_char(c));
    let mut i: usize = 0;
    assert(chars@.skip(0) =~= chars@);
    while i < chars.len() && chars[i] != '(' && chars[i] != '-'
        invariant
            chars@ == name@,
            i <= chars@.len(),
            kept@.len() == i,
            before_noise(name@) == chars@.take(i as int) + before_noise(chars@.skip(i as int)),
            forall|k: int| 0 <= k < i ==> kept@[k] == stem_char(chars@[k]),
        decreases chars@.len() - i,
    {
        let c = chars[i];
        assert(chars@.skip(i as int).skip(1) =~= chars@.skip(i + 1));
        assert(before_noise(name@) =~= chars@.take(i + 1) + before_noise(chars@.skip(i + 1)));
        if is_alphanumeric(c) || c == '_' {
            kept.push(c);
        } else {
            kept.push('_');
        }
        i = i + 1;
    }
    assert(before_noise(name@) =~= chars@.take(i as int));
    assert(kept@ =~= mapped);
    let mut from: usize = 0;
    assert(kept@.skip(0) =~= kept@);
    while from < kept.len() && kept[from] == '_'
        invariant
            from <= kept@.len(),
            no_leading(kept@) == no_leading(kept@.skip(from as int)),
        decreases kept@.len() - from,
    {
        assert(kept@.skip(from as int).skip(1) =~= kept@.skip(from + 1));
        from = from + 1;
    }
    let ghost tail = kept@.skip(from as int);
    assert(no_leading(kept@) == tail);
    let mut to: usize = kept.len();
    assert(kept@.subrange(from as int, to as int) =~= tail);
    while to > from && kept[to - 1] == '_'
        invariant
            from <= to <= kept@.len(),
            no_trailing(tail) == no_trailing(kept@.subrange(from as int, to as int)),
        decreases to,
    {
        assert(kept@.subrange(from as int, to as int).drop_last() =~= kept@.subrange(
            from as int,
            to - 1,
        ));
        to = to - 1;
    }
    let mut out = String::new();
    let mut k: usize = from;
    while k < to
        invariant
            from <= k <= to <= kept@.len(),
            out@ == kept@.subrange(from as int, k as int),
        decreases to - k,
    {
        out.push(kept[k]);
        assert(out@ =~= kept@.subrange(from as int, k + 1));
        k = k + 1;
    }
    if from == to {
        out = "img".to_owned();
        text::push_decimal(&mut out, idx as u64);
    }
    out
}

/// A file-safe name has as many characters as the name it is of: letters, digits, `_` and `-` stay,
/// and every other is written `_`.
pub proof fn safe_characters_stay(name: Seq<char>, i: int)
    requires
        0 <= i < name.len(),
    ensures
        sanitized(name).len() == name.len(),
        ({
            let c = name[i];
            sanitized(name)[i] == if 'a' <= c <= 'z' || 'A' <= c <= 'Z' || '0' <= c <= '9' || c == '_'
                || c == '-' {
                c
            } else {
                '_'
            }
        }),
{
}

/// The base name of a path is what follows its last separator, of either kind.
pub proof fn base_names_follow_separators(path: Seq<char>, name: Seq<char>)
    requires
        !name.contains('/'),
        !name.contains('\\'),
    ensures
        last_component(name) == name,
        last_component(path + seq!['/'] + name) == name,
        last_component(path + seq!['\\'] + name) == name,
    decreases name.len(),
{
    let (a, b) = (path + seq!['/'] + name, path + seq!['\\'] + name);
    if name.len() == 0 {
        assert(a.last() == '/' && b.last() == '\\');
        assert(name =~= Seq::<char>::empty());
    } else {
        let most = name.drop_last();
        assert(name[name.len() - 1] == name.last());
        assert(name.contains(name.last()));
        assert forall|c: char| most.contains(c) implies name.contains(c) by {
            let k = choose|k: int| 0 <= k < most.len() && most[k] == c;
            assert(name[k] == c);
        }
        base_names_follow_separators(path, most);
        assert(a.drop_last() =~= path + seq!['/'] + most);
        assert(b.drop_last() =~= path + seq!['\\'] + most);
        assert(a.last() == name.last() && b.last() == name.last());
        assert(most.push(name.last()) =~= name);
    }
}

/// A group's node gives its scene its own name, without the ending that marks a group; a node
/// without a name gives it a number.
pub proof fn groups_lose_their_ending(name: Seq<char>, index: nat)
    requires
        name.len() > 0,
    ensures
        group_base(Some(name + "_grp"@), index) == sanitized(name),
        !text::ends_in(name, "_grp"@) ==> group_base(Some(name), index) == sanitized(name),
        group_base(Some("_grp"@), index) == "group_"@ + text::decimal(index),
        group_base(None, index) == "group_"@ + text::decimal(index),
{
    let long = name + "_grp"@;
    assert(long.subrange(name.len() as int, long.len() as int) =~= "_grp"@);
    assert(long.take(name.len() as int) =~= name);
    let bare = "_grp"@;
    assert(bare.subrange(0, bare.len() as int) =~= bare);
}

/// A name that is free is taken as it is. One that is not gets the smallest number from one on that
/// makes it free, between an underscore and its ending.
pub proof fn taken_names_get_numbers(
    base: Seq<char>,
    tail: Seq<char>,
    used: Seq<Seq<char>>,
    n: nat,
)
    requires
        first_free(base, tail, used, n),
    ensures
        !used.contains(base + tail) ==> numbered(base, tail, n) == base + tail,
        used.contains(base + tail) ==> n >= 1 && numbered(base, tail, n) == base + "_"@ + text::decimal(n)
            + tail,
        forall|m: nat|
            1 <= m < n ==> used.contains(#[trigger] numbered(base, tail, m)) && numbered(base, tail, m)
                == base + "_"@ + text::decimal(m) + tail,
{
    reveal_strlit("_");
    assert("_"@ =~= seq!['_']);
    if n > 0 {
        assert(used.contains(numbered(base, tail, 0)));
    }
}

/// An image keeps its name, made safe; one without a name has its number.
pub proof fn images_keep_their_names(name: Seq<char>, idx: nat)
    requires
        name.len() > 0,
    ensures
        image_stem(Some(name), idx) == sanitized(name),
        image_stem(None, idx) == "image_"@ + text::decimal(idx),
        image_stem(Some(Seq::<char>::empty()), idx) == image_stem(None, idx),
{
}

/// The character code of a hexadecimal digit, in lower or in upper case.
pub open spec fn hex_code(v: int, upper: bool) -> u8 {
    if v < 10 {
        (48 + v) as u8
    } else if upper {
        (55 + v) as u8
    } else {
        (87 + v) as u8
    }
}

/// An escape stands for the byte that its two digits write, in either letter case; what follows is
/// decoded by itself, and a byte that begins no escape stands for itself.
pub proof fn escapes_stand_for_their_byte(
    x: int,
    y: int,
    a: bool,
    b: bool,
    c: u8,
    rest: Seq<u8>,
)
    requires
        0 <= x < 16,
        0 <= y < 16,
        c != 37,
    ensures
        percent_decoded(seq![37u8, hex_code(x, a), hex_code(y, b)] + rest) == seq![(16 * x + y) as u8]
            + percent_decoded(rest),
        percent_decoded(seq![c] + rest) == seq![c] + percent_decoded(rest),
        percent_decoded(Seq::<u8>::empty()).len() == 0,
{
    let e = seq![37u8, hex_code(x, a), hex_code(y, b)] + rest;
    assert(e.skip(3) =~= rest);
    assert(hex_digit(hex_code(x, a)) == Some(x as u8));
    assert(hex_digit(hex_code(y, b)) == Some(y as u8));
    assert((seq![c] + rest).skip(1) =~= rest);
}

/// An image's stem is made of letters, digits and inner underscores only.
pub proof fn stems_are_safe(name: Seq<char>)
    ensures
        ({
            let s = safe_part(name);
            &&& forall|i: int|
                0 <= i < s.len() ==> ('a' <= #[trigger] s[i] <= 'z' || 'A' <= s[i] <= 'Z' || '0' <= s[i]
                    <= '9' || s[i] == '_')
            &&& s.len() > 0 ==> s[0] != '_' && s.last() != '_'
        }),
{
    let m = before_noise(name).map_values(|c: char| stem_char(c));
    lemma_no_leading(m);
    lemma_no_trailing(no_leading(m));
}

proof fn lemma_no_leading(s: Seq<char>)
    ensures
        ({
            let t = no_leading(s);
            &&& t.len() <= s.len()
            &&& t == s.skip(s.len() - t.len())
            &&& t.len() > 0 ==> t[0] != '_'
        }),
    decreases s.len(),
{
    if s.len() > 0 && s[0] == '_' {
        lemma_no_leading(s.skip(1));
        let t = no_leading(s);
        assert(s.skip(1).skip(s.len() - 1 - t.len()) =~= s.skip(s.len() - t.len()));
    } else {
        assert(s.skip(0) =~= s);
    }
}

proof fn lemma_no_trailing(s: Seq<char>)
    ensures
        ({
            let t = no_trailing(s);
            &&& t.len() <= s.len()
            &&& t == s.take(t.len() as int)
            &&& t.len() > 0 ==> t.last() != '_'
        }),
    decreases s.len(),
{
    if s.len() > 0 && s.last() == '_' {
        lemma_no_trailing(s.drop_last());
        let t = no_trailing(s);
        assert(s.drop_last().take(t.len() as int) =~= s.take(t.len() as int));
    } else {
        assert(s.take(s.len() as int) =~= s);
    }
}

/// What follows the first parenthesis or hyphen of an image's name does not count, and a plain name
/// is its own stem.
pub proof fn noise_does_not_count(name: Seq<char>, mark: char, rest: Seq<char>)
    requires
        mark == '(' || mark == '-',
        !name.contains('('),
        !name.contains('-'),
    ensures
        safe_part(name + seq![mark] + rest) == safe_part(name),
        (forall|i: int| 0 <= i < name.len() ==> 'a' <= #[trigger] name[i] <= 'z') ==> safe_part(name)
            == name,
{
    lemma_before_noise(name, mark, rest);
    if forall|i: int| 0 <= i < name.len() ==> 'a' <= #[trigger] name[i] <= 'z' {
        let m = name.map_values(|c: char| stem_char(c));
        assert(m =~= name);
        if name.len() > 0 {
            assert('a' <= name[0] <= 'z');
            assert('a' <= name[name.len() - 1] <= 'z');
        }
        assert(no_leading(name) == name);
        assert(no_trailing(name) == name);
    }
}

proof fn lemma_before_noise(name: Seq<char>, mark: char, rest: Seq<char>)
    requires
        mark == '(' || mark == '-',
        !name.contains('('),
        !name.contains('-'),
    ensures
        before_noise(name + seq![mark] + rest) == name,
        before_noise(name) == name,
    decreases name.len(),
{
    let all = name + seq![mark] + rest;
    if name.len() == 0 {
        assert(all[0] == mark);
        assert(name =~= Seq::<char>::empty());
    } else {
        let less = name.skip(1);
        assert(name.contains(name[0]));
        assert forall|c: char| less.contains(c) implies name.contains(c) by {
            let k = choose|k: int| 0 <= k < less.len() && less[k] == c;
            assert(name[k + 1] == c);
        }
        lemma_before_noise(less, mark, rest);
        assert(all.skip(1) =~= less + seq![mark] + rest);
        assert(all[0] == name[0]);
        assert(seq![name[0]] + less =~= name);
    }
}

/// Of the displacement maps whose keys begin a texture's name, one with a longer key wins.
pub proof fn longer_keys_win(stem: Seq<char>, maps: Seq<(String, String)>, i: int, j: int)
    requires
        0 <= i < maps.len(),
        0 <= j < maps.len(),
        maps[j].0@.is_prefix_of(stem),
        maps[j].0@.len() > 0,
        encode_utf8(maps[i].0@).len() < encode_utf8(maps[j].0@).len(),
    ensures
        !best_displacement(stem, maps, i),
{
    assert(stem.subrange(0, maps[j].0@.len() as int) =~= maps[j].0@);
    assert(displacement_fits(stem, maps, j));
}

/// An image's stem is the safe part of its name, and its number where that leaves nothing.
pub proof fn unsafe_names_get_numbers(name: Seq<char>, idx: nat)
    ensures
        safe_part(name).len() > 0 ==> safe_stem(name, idx) == safe_part(name),
        safe_part(name).len() == 0 ==> safe_stem(name, idx) == "img"@ + text::decimal(idx),
{
}

/// An image's ending goes by what its media type holds: a PNG's before a JPEG's, and that before a
/// texture container's; any other is `bin`.
pub proof fn endings_go_by_media_type(mime: Seq<char>)
    ensures
        text::contains_text(mime, "png"@) ==> extension_for(mime) == "png"@,
        !text::contains_text(mime, "png"@) && (text::contains_text(mime, "jpeg"@) || text::contains_text(
            mime,
            "jpg"@,
        )) ==> extension_for(mime) == "jpg"@,
        !text::contains_text(mime, "png"@) && !text::contains_text(mime, "jpeg"@) && !text::contains_text(
            mime,
            "jpg"@,
        ) ==> extension_for(mime) == if text::contains_text(mime, "ktx"@) {
            "ktx2"@
        } else {
            "bin"@
        },
{
}

} // verus!
