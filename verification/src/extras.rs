//! Custom properties of a node: what it stands in for, and whether it collides.

use vstd::prelude::*;
use crate::text;

verus! {

/// What a JSON property says, as far as a yes or no can be read from it.
#[derive(Clone, Copy, Debug, PartialEq, Eq, Structural)]
pub enum JsonFlag {
    /// A truth value.
    Truth(bool),
    /// A number, by the bits of its 64-bit float, where it has one.
    Number(Option<u64>),
    /// Anything else, nothing, or no JSON at all.
    Other,
}

/// The text of a property of a JSON object.
pub uninterp spec fn json_string(src: Seq<char>, key: Seq<char>) -> Option<Seq<char>>;

/// What a property of a JSON object says.
pub uninterp spec fn json_flag(src: Seq<char>, key: Seq<char>) -> JsonFlag;

/// Parses with `serde_json::from_str` and reads a property with `Value::get` and
/// `Value::as_str`; nothing where any of them finds nothing. The result depends on the text and
/// the key alone.
#[verifier::external_body]
fn string_field(src: &str, key: &str) -> (r: Option<String>)
    ensures
        crate::document::opt_text(r) == json_string(src@, key@),
{
    let value: serde_json::Value = serde_json::from_str(src).ok()?;
    value.get(key)?.as_str().map(|s| s.to_string())
}

/// Parses with `serde_json::from_str` and tells the variants of a property apart. The result
/// depends on the text and the key alone.
#[verifier::external_body]
fn flag_field(src: &str, key: &str) -> (r: JsonFlag)
    ensures
        r == json_flag(src@, key@),
{
    match serde_json::from_str::<serde_json::Value>(src) {
        Ok(value) => match value.get(key) {
            Some(serde_json::Value::Bool(b)) => JsonFlag::Truth(*b),
            Some(serde_json::Value::Number(n)) => JsonFlag::Number(n.as_f64().map(|x| x.to_bits())),
            _ => JsonFlag::Other,
        },
        Err(_) => JsonFlag::Other,
    }
}

/// The scene path that a `bsn` property gives: the text, where it is not empty, with double
/// quotes turned into single ones.
pub open spec fn proxy_of(bsn: Option<Seq<char>>) -> Option<Seq<char>> {
    match bsn {
        Some(p) if p.len() > 0 => Some(text::replaced(p, '"', '\'')),
        _ => None,
    }
}

/// Takes the scene path from a `bsn` property.
pub fn proxy_path(bsn: Option<&str>) -> (r: Option<String>)
    ensures
        crate::document::opt_text(r) == proxy_of(crate::names::optional(bsn)),
{
    match bsn {
        Some(p) => if p.is_empty() {
            None
        } else {
            Some(text::replace_char(p, '"', '\''))
        },
        None => None,
    }
}

/// The scene that a node with these extras stands in for.
pub open spec fn proxy_in(extras: Option<Seq<char>>) -> Option<Seq<char>> {
    match extras {
        Some(src) => proxy_of(json_string(src, "bsn"@)),
        None => None,
    }
}

/// A node tagged with a `bsn` custom property is a proxy: something you can see and place in the
/// viewport that stands in for an asset baked elsewhere.
pub fn bsn_proxy(extras: &Option<String>) -> (r: Option<String>)
    ensures
        crate::document::opt_text(r) == proxy_in(crate::document::opt_text(*extras)),
{
    match extras {
        Some(src) => match string_field(src.as_str(), "bsn") {
            Some(p) => proxy_path(Some(p.as_str())),
            None => None,
        },
        None => None,
    }
}

/// Whether a `collide` property wants collision: `false` and zero do not, anything else does.
pub open spec fn wants_collision(flag: JsonFlag) -> bool {
    match flag {
        JsonFlag::Truth(b) => b,
        JsonFlag::Number(Some(bits)) => bits != 0 && bits != 0x8000_0000_0000_0000,
        _ => true,
    }
}

/// Reads whether a `collide` property wants collision.
pub fn collision_wanted(flag: JsonFlag) -> (r: bool)
    ensures
        r == wants_collision(flag),
{
    match flag {
        JsonFlag::Truth(b) => b,
        JsonFlag::Number(Some(bits)) => bits != 0 && bits != 0x8000_0000_0000_0000,
        _ => true,
    }
}

/// Whether a node with these extras collides.
pub open spec fn collides_in(extras: Option<Seq<char>>) -> bool {
    match extras {
        Some(src) => wants_collision(json_flag(src, "collide"@)),
        None => true,
    }
}

/// Does this node want collision? Default yes; one carrying `collide = 0` opts out.
pub fn collides(extras: &Option<String>) -> (r: bool)
    ensures
        r == collides_in(crate::document::opt_text(*extras)),
{
    match extras {
        Some(src) => collision_wanted(flag_field(src.as_str(), "collide")),
        None => true,
    }
}

/// Only a text that is not empty makes a node a stand-in, and it is kept character by character,
/// with its quotes made single; a node without extras is none, and collides.
pub proof fn stand_ins_are_named(extras: Seq<char>)
    ensures
        proxy_in(None) is None,
        collides_in(None),
        match json_string(extras, "bsn"@) {
            Some(p) => if p.len() == 0 {
                proxy_in(Some(extras)) is None
            } else {
                proxy_in(Some(extras)) matches Some(q) && q.len() == p.len() && forall|i: int|
                    0 <= i < p.len() ==> #[trigger] q[i] == (if p[i] == '"' {
                        '\''
                    } else {
                        p[i]
                    })
            },
            None => proxy_in(Some(extras)) is None,
        },
{
}

/// A node opts out of collision by `false` or by a zero of either sign, and by nothing else.
pub proof fn nodes_opt_out_of_collision(extras: Seq<char>)
    ensures
        !collides_in(Some(extras)) <==> json_flag(extras, "collide"@) == JsonFlag::Truth(false)
            || json_flag(extras, "collide"@) == JsonFlag::Number(Some(0u64)) || json_flag(
            extras,
            "collide"@,
        ) == JsonFlag::Number(Some(0x8000_0000_0000_0000u64)),
{
}

} // verus!
