//! Formatting tags such as `y:i`: identity ignores the case of the first
//! character, which only says whether the tag covers a whole physical line.
use vstd::prelude::*;

verus! {

/// What `char::to_lowercase` yields for a character.
pub uninterp spec fn lower_of(c: char) -> Seq<char>;

/// What `char::to_uppercase` yields for a character.
pub uninterp spec fn upper_of(c: char) -> Seq<char>;

/// Whether `char::is_uppercase` holds of a character.
pub uninterp spec fn uppercase_char(c: char) -> bool;

/// Relies on `char::to_lowercase`: the characters of its lowercase mapping.
#[verifier::external_body]
fn char_lowercase(c: char) -> (r: Vec<char>)
    ensures
        r@ == lower_of(c),
{
    c.to_lowercase().collect()
}

/// Relies on `char::to_uppercase`: the characters of its uppercase mapping.
#[verifier::external_body]
fn char_uppercase(c: char) -> (r: Vec<char>)
    ensures
        r@ == upper_of(c),
{
    c.to_uppercase().collect()
}

/// Relies on `char::is_uppercase`: the Unicode `Uppercase` property.
#[verifier::external_body]
fn is_uppercase_char(c: char) -> (r: bool)
    ensures
        r == uppercase_char(c),
{
    c.is_uppercase()
}

/// The tag with its first character uppercased (or lowercased), the rest
/// untouched.
pub open spec fn map_first(t: Seq<char>, upper: bool) -> Seq<char> {
    if t.len() == 0 {
        t
    } else if upper {
        upper_of(t[0]) + t.drop_first()
    } else {
        lower_of(t[0]) + t.drop_first()
    }
}

/// The stored identity of a tag: its first character lowercased.
pub open spec fn normalized(t: Seq<char>) -> Seq<char> {
    map_first(t, false)
}

/// A tag written with an uppercase first character covers every segment of
/// its physical line.
pub open spec fn is_group_scoped(t: Seq<char>) -> bool {
    t.len() > 0 && uppercase_char(t[0])
}

/// How a tag is written: first character uppercased when group-scoped,
/// lowercased otherwise.
pub open spec fn rendered(t: Seq<char>, group_scoped: bool) -> Seq<char> {
    map_first(t, group_scoped)
}

/// Appends the tag with its first character case-mapped, the rest untouched.
fn push_mapped(out: &mut Vec<char>, t: &Vec<char>, upper: bool)
    ensures
        final(out)@ == old(out)@ + map_first(t@, upper),
{
    if t.len() == 0 {
        return ;
    }
    let first = if upper {
        char_uppercase(t[0])
    } else {
        char_lowercase(t[0])
    };
    let mut k: usize = 0;
    while k < first.len()
        invariant
            0 <= k <= first.len(),
            out@ == old(out)@ + first@.take(k as int),
        decreases first.len() - k,
    {
        out.push(first[k]);
        k += 1;
        assert(first@.take(k as int) == first@.take(k - 1).push(first@[k - 1]));
    }
    let mut j: usize = 1;
    while j < t.len()
        invariant
            1 <= j <= t.len(),
            t@.len() > 0,
            first@ == if upper { upper_of(t@[0]) } else { lower_of(t@[0]) },
            out@ == old(out)@ + first@ + t@.subrange(1, j as int),
        decreases t.len() - j,
    {
        out.push(t[j]);
        j += 1;
        assert(t@.subrange(1, j as int) == t@.subrange(1, j - 1).push(t@[j - 1]));
    }
    assert(t@.subrange(1, t@.len() as int) == t@.drop_first());
    assert(first@.take(first@.len() as int) == first@);
}

/// The identity under which a tag is stored: first character lowercased.
pub fn lowercase_first_char(t: &Vec<char>) -> (r: Vec<char>)
    ensures
        r@ == normalized(t@),
{
    let mut r: Vec<char> = Vec::new();
    push_mapped(&mut r, t, false);
    r
}

/// The tag as written in a container line's header: first character
/// uppercased.
pub fn uppercase_first_char(t: &Vec<char>) -> (r: Vec<char>)
    ensures
        r@ == rendered(t@, true),
{
    let mut r: Vec<char> = Vec::new();
    push_mapped(&mut r, t, true);
    r
}

/// Appends `{tag}` with the tag rendered group- or line-scoped.
pub fn push_tag_block(out: &mut Vec<char>, t: &Vec<char>, group_scoped: bool)
    ensures
        final(out)@ == old(out)@ + seq!['{'] + rendered(t@, group_scoped) + seq!['}'],
{
    out.push('{');
    push_mapped(out, t, group_scoped);
    out.push('}');
}

/// Whether the tag, as written, is group-scoped.
pub fn is_container_line_formatting(t: &Vec<char>) -> (r: bool)
    ensures
        r == is_group_scoped(t@),
{
    t.len() > 0 && is_uppercase_char(t[0])
}

} // verus!
