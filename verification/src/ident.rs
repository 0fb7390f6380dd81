//! Identifiers derived from document keys.

use vstd::prelude::*;
use vstd::string::*;

verus! {

/// What `str::to_uppercase` makes of a text.
pub uninterp spec fn uppercase(text: Seq<char>) -> Seq<char>;

/// What `str::to_lowercase` makes of a text.
pub uninterp spec fn lowercase(text: Seq<char>) -> Seq<char>;

/// Whether `char::is_uppercase` holds of a character.
pub uninterp spec fn is_uppercase_char(c: char) -> bool;

/// Whether `char::is_numeric` holds of a character.
pub uninterp spec fn is_numeric_char(c: char) -> bool;

/// `str::to_uppercase` of std: the text in upper case.
pub assume_specification[ str::to_uppercase ](text: &str) -> (upper: std::string::String)
    ensures
        upper@ == uppercase(text@),
;

/// `str::to_lowercase` of std: the text in lower case.
pub assume_specification[ str::to_lowercase ](text: &str) -> (lower: std::string::String)
    ensures
        lower@ == lowercase(text@),
;

/// `char::is_uppercase` of std: whether the character has the Unicode
/// property `Uppercase`.
pub assume_specification[ char::is_uppercase ](c: char) -> (upper: bool)
    ensures
        upper == is_uppercase_char(c),
;

/// `char::is_numeric` of std: whether the character is a Unicode number.
pub assume_specification[ char::is_numeric ](c: char) -> (numeric: bool)
    ensures
        numeric == is_numeric_char(c),
;

/// `String::push` of std: appends one character.
pub assume_specification[ std::string::String::push ](text: &mut std::string::String, c: char)
    ensures
        final(text)@ == old(text)@.push(c),
;

/// The characters that may not stand in an identifier and are replaced.
pub open spec fn is_replaced(c: char) -> bool {
    c == ' ' || c == '-' || c == '_' || c == ':' || c == '.' || c == '/' || c == '\\' || c == '"'
}

/// The text with every replaced character turned into an underscore.
pub open spec fn replaced(text: Seq<char>) -> Seq<char> {
    Seq::new(
        text.len(),
        |i: int|
            if is_replaced(text[i]) {
                '_'
            } else {
                text[i]
            },
    )
}

/// The pieces into which the underscores divide a text; there is one more
/// piece than there are underscores.
pub open spec fn pieces(text: Seq<char>) -> Seq<Seq<char>>
    decreases text.len(),
{
    if text.len() == 0 {
        seq![Seq::empty()]
    } else if text.last() == '_' {
        pieces(text.drop_last()).push(Seq::empty())
    } else {
        pieces(text.drop_last()).update(
            pieces(text.drop_last()).len() - 1,
            pieces(text.drop_last()).last().push(text.last()),
        )
    }
}

/// The text with an underscore put before every upper-case character but
/// the first character.
pub open spec fn with_breaks(text: Seq<char>) -> Seq<char>
    decreases text.len(),
{
    if text.len() == 0 {
        Seq::empty()
    } else if is_uppercase_char(text.last()) && text.len() > 1 {
        with_breaks(text.drop_last()).push('_').push(text.last())
    } else {
        with_breaks(text.drop_last()).push(text.last())
    }
}

/// The ASCII upper-case form of a character.
pub open spec fn ascii_upper(c: char) -> char {
    if 'a' <= c <= 'z' {
        ((c as u8) - 32) as char
    } else {
        c
    }
}

/// The ASCII lower-case form of a character.
pub open spec fn ascii_lower(c: char) -> char {
    if 'A' <= c <= 'Z' {
        ((c as u8) + 32) as char
    } else {
        c
    }
}

/// The piece with its first character in ASCII upper case and the others in
/// ASCII lower case.
pub open spec fn capitalized(piece: Seq<char>) -> Seq<char> {
    Seq::new(
        piece.len(),
        |i: int|
            if i == 0 {
                ascii_upper(piece[i])
            } else {
                ascii_lower(piece[i])
            },
    )
}

/// The first `n` pieces, capitalized and put together.
pub open spec fn pascal(parts: Seq<Seq<char>>, n: nat) -> Seq<char>
    decreases n,
{
    if n == 0 || n > parts.len() {
        Seq::empty()
    } else {
        pascal(parts, (n - 1) as nat) + capitalized(parts[n - 1])
    }
}

/// The first `n` pieces in upper case, with an underscore between each two.
pub open spec fn screaming(parts: Seq<Seq<char>>, n: nat) -> Seq<char>
    decreases n,
{
    if n == 0 || n > parts.len() {
        Seq::empty()
    } else if n == 1 {
        uppercase(parts[0])
    } else {
        screaming(parts, (n - 1) as nat).push('_') + uppercase(parts[n - 1])
    }
}

/// The text, with an underscore before it where it begins with a number.
pub open spec fn numeric_prefixed(text: Seq<char>) -> Seq<char> {
    if text.len() > 0 && is_numeric_char(text[0]) {
        seq!['_'] + text
    } else {
        text
    }
}

/// The variable identifier of a key: SCREAMING_SNAKE_CASE.
pub open spec fn variable_ident(key: Seq<char>) -> Seq<char> {
    numeric_prefixed(screaming(pieces(replaced(key)), pieces(replaced(key)).len()))
}

/// The module identifier of a key: snake_case.
pub open spec fn module_ident(key: Seq<char>) -> Seq<char> {
    lowercase(variable_ident(key))
}

/// The pieces of which the type identifier of a key is made: those between
/// the replaced characters where there is one, else those that begin at
/// each upper-case character.
pub open spec fn type_pieces(key: Seq<char>) -> Seq<Seq<char>> {
    if replaced(key).contains('_') {
        pieces(replaced(key))
    } else {
        pieces(with_breaks(replaced(key)))
    }
}

/// The type identifier of a key: PascalCase.
pub open spec fn type_ident(key: Seq<char>) -> Seq<char> {
    numeric_prefixed(pascal(type_pieces(key), type_pieces(key).len()))
}

/// The texts of a list of character lists.
pub open spec fn lines(parts: Seq<Vec<char>>) -> Seq<Seq<char>> {
    Seq::new(parts.len(), |i: int| parts[i]@)
}

/// The characters of a text.
pub fn chars_of(text: &str) -> (chars: Vec<char>)
    ensures
        chars@ == text@,
{
    let n = text.unicode_len();
    let mut chars: Vec<char> = Vec::new();
    let mut i: usize = 0;
    while i < n
        invariant
            i <= n,
            n == text@.len(),
            chars@ == text@.take(i as int),
        decreases n - i,
    {
        chars.push(text.get_char(i));
        assert(text@.take(i as int + 1) =~= text@.take(i as int).push(text@[i as int]));
        i += 1;
    }
    assert(text@.take(n as int) =~= text@);
    chars
}

/// The text made of the characters.
pub fn string_of(chars: &Vec<char>) -> (text: String)
    ensures
        text@ == chars@,
{
    let mut text = String::new();
    let mut i: usize = 0;
    while i < chars.len()
        invariant
            i <= chars.len(),
            text@ == chars@.take(i as int),
        decreases chars.len() - i,
    {
        text.push(chars[i]);
        assert(chars@.take(i as int + 1) =~= chars@.take(i as int).push(chars@[i as int]));
        i += 1;
    }
    assert(chars@.take(chars.len() as int) =~= chars@);
    text
}

/// Replaces the characters that may not stand in an identifier.
pub fn replace_chars(chars: &Vec<char>) -> (out: Vec<char>)
    ensures
        out@ == replaced(chars@),
{
    let mut out: Vec<char> = Vec::new();
    let mut i: usize = 0;
    while i < chars.len()
        invariant
            i <= chars.len(),
            out.len() == i,
            forall|j: int| 0 <= j < i ==> out[j] == replaced(chars@)[j],
        decreases chars.len() - i,
    {
        let c = chars[i];
        if c == ' ' || c == '-' || c == '_' || c == ':' || c == '.' || c == '/' || c == '\\' || c
            == '"' {
            out.push('_');
        } else {
            out.push(c);
        }
        i += 1;
    }
    assert(out@ =~= replaced(chars@));
    out
}

/// Divides the characters at every underscore.
pub fn split_underscores(chars: &Vec<char>) -> (parts: Vec<Vec<char>>)
    ensures
        lines(parts@) == pieces(chars@),
        parts.len() > 0,
{
    let mut parts: Vec<Vec<char>> = Vec::new();
    let mut current: Vec<char> = Vec::new();
    let mut i: usize = 0;
    assert(chars@.take(0) =~= Seq::empty());
    assert(lines(parts@).push(current@) =~= pieces(chars@.take(0)));
    while i < chars.len()
        invariant
            i <= chars.len(),
            lines(parts@).push(current@) == pieces(chars@.take(i as int)),
        decreases chars.len() - i,
    {
        let ghost before = lines(parts@).push(current@);
        let ghost prefix = chars@.take(i as int + 1);
        assert(prefix.drop_last() =~= chars@.take(i as int));
        assert(prefix.last() == chars@[i as int]);
        if chars[i] == '_' {
            parts.push(current);
            current = Vec::new();
            assert(lines(parts@).push(current@) =~= before.push(Seq::empty()));
        } else {
            current.push(chars[i]);
            assert(lines(parts@).push(current@) =~= before.update(
                before.len() - 1,
                before.last().push(chars@[i as int]),
            ));
        }
        i += 1;
    }
    assert(chars@.take(chars.len() as int) =~= chars@);
    let ghost before = lines(parts@);
    parts.push(current);
    assert(lines(parts@) =~= before.push(current@));
    parts
}

/// Puts an underscore before every upper-case character but the first
/// character.
pub fn break_before_capitals(chars: &Vec<char>) -> (out: Vec<char>)
    ensures
        out@ == with_breaks(chars@),
{
    let mut out: Vec<char> = Vec::new();
    let mut i: usize = 0;
    assert(chars@.take(0) =~= Seq::empty());
    while i < chars.len()
        invariant
            i <= chars.len(),
            out@ == with_breaks(chars@.take(i as int)),
            (out.len() == 0) == (i == 0),
        decreases chars.len() - i,
    {
        let ghost prefix = chars@.take(i as int + 1);
        assert(prefix.drop_last() =~= chars@.take(i as int));
        assert(prefix.last() == chars@[i as int]);
        let c = chars[i];
        if c.is_uppercase() && out.len() > 0 {
            out.push('_');
        }
        out.push(c);
        i += 1;
    }
    assert(chars@.take(chars.len() as int) =~= chars@);
    out
}

/// The text with an underscore put before every upper-case character but
/// the first.
pub fn split_pascal_case(text: &str) -> (out: String)
    ensures
        out@ == with_breaks(text@),
{
    let chars = chars_of(text);
    let broken = break_before_capitals(&chars);
    string_of(&broken)
}

/// The ASCII upper-case form of a character.
pub fn to_ascii_upper(c: char) -> (upper: char)
    ensures
        upper == ascii_upper(c),
{
    if 'a' <= c && c <= 'z' {
        ((c as u8) - 32) as char
    } else {
        c
    }
}

/// The ASCII lower-case form of a character.
pub fn to_ascii_lower(c: char) -> (lower: char)
    ensures
        lower == ascii_lower(c),
{
    if 'A' <= c && c <= 'Z' {
        ((c as u8) + 32) as char
    } else {
        c
    }
}

/// Whether a character occurs in a list.
pub fn contains_char(chars: &Vec<char>, c: char) -> (found: bool)
    ensures
        found == chars@.contains(c),
{
    let mut i: usize = 0;
    while i < chars.len()
        invariant
            i <= chars.len(),
            forall|j: int| 0 <= j < i ==> chars[j] != c,
        decreases chars.len() - i,
    {
        if chars[i] == c {
            return true;
        }
        i += 1;
    }
    false
}

/// Puts an underscore before a text that begins with a number.
pub fn prefix_numeric(chars: Vec<char>) -> (out: Vec<char>)
    ensures
        out@ == numeric_prefixed(chars@),
{
    if chars.len() > 0 && chars[0].is_numeric() {
        let mut out: Vec<char> = Vec::new();
        out.push('_');
        let mut i: usize = 0;
        while i < chars.len()
            invariant
                i <= chars.len(),
                out@ == seq!['_'] + chars@.take(i as int),
            decreases chars.len() - i,
        {
            out.push(chars[i]);
            assert(chars@.take(i as int + 1) =~= chars@.take(i as int).push(chars@[i as int]));
            assert(seq!['_'] + chars@.take(i as int + 1) =~= (seq!['_'] + chars@.take(i as int)).push(
                chars@[i as int],
            ));
            i += 1;
        }
        assert(chars@.take(chars.len() as int) =~= chars@);
        out
    } else {
        chars
    }
}

/// Appends the characters of `more` to `out`.
pub fn append_chars(out: &mut Vec<char>, more: &Vec<char>)
    ensures
        final(out)@ == old(out)@ + more@,
{
    let ghost before = out@;
    let mut i: usize = 0;
    while i < more.len()
        invariant
            i <= more.len(),
            out@ == before + more@.take(i as int),
        decreases more.len() - i,
    {
        out.push(more[i]);
        assert(before + more@.take(i as int + 1) =~= (before + more@.take(i as int)).push(
            more@[i as int],
        ));
        i += 1;
    }
    assert(more@.take(more.len() as int) =~= more@);
}

/// Create a valid variable identifier, formatted as SCREAMING_SNAKE_CASE.
pub fn to_variable_ident(key: &str) -> (ident: String)
    ensures
        ident@ == variable_ident(key@),
{
    let chars = chars_of(key);
    let inter = replace_chars(&chars);
    let parts = split_underscores(&inter);
    let mut out: Vec<char> = Vec::new();
    let mut i: usize = 0;
    while i < parts.len()
        invariant
            i <= parts.len(),
            out@ == screaming(lines(parts@), i as nat),
        decreases parts.len() - i,
    {
        if i > 0 {
            out.push('_');
        }
        let piece = string_of(&parts[i]);
        let upper = piece.as_str().to_uppercase();
        let upper_chars = chars_of(upper.as_str());
        assert(lines(parts@)[i as int] == parts[i as int]@);
        append_chars(&mut out, &upper_chars);
        i += 1;
    }
    let out = prefix_numeric(out);
    string_of(&out)
}

/// Create a valid module identifier, formatted as snake_case.
pub fn to_module_ident(key: &str) -> (ident: String)
    ensures
        ident@ == module_ident(key@),
{
    to_variable_ident(key).as_str().to_lowercase()
}

/// The piece with its first character in ASCII upper case and the others in
/// ASCII lower case.
pub fn capitalize(piece: &Vec<char>) -> (out: Vec<char>)
    ensures
        out@ == capitalized(piece@),
{
    let mut out: Vec<char> = Vec::new();
    let mut i: usize = 0;
    while i < piece.len()
        invariant
            i <= piece.len(),
            out.len() == i,
            forall|j: int| 0 <= j < i ==> out[j] == capitalized(piece@)[j],
        decreases piece.len() - i,
    {
        if i == 0 {
            out.push(to_ascii_upper(piece[i]));
        } else {
            out.push(to_ascii_lower(piece[i]));
        }
        i += 1;
    }
    assert(out@ =~= capitalized(piece@));
    out
}

/// Create a valid type identifier, formatted as PascalCase.
pub fn to_type_ident(key: &str) -> (ident: String)
    ensures
        ident@ == type_ident(key@),
{
    let chars = chars_of(key);
    let inter = replace_chars(&chars);
    let parts = if contains_char(&inter, '_') {
        split_underscores(&inter)
    } else {
        // split at a capital letter, but preserve the letter
        let broken = break_before_capitals(&inter);
        split_underscores(&broken)
    };
    let mut out: Vec<char> = Vec::new();
    let mut i: usize = 0;
    while i < parts.len()
        invariant
            i <= parts.len(),
            out@ == pascal(lines(parts@), i as nat),
        decreases parts.len() - i,
    {
        let piece = capitalize(&parts[i]);
        assert(lines(parts@)[i as int] == parts[i as int]@);
        append_chars(&mut out, &piece);
        i += 1;
    }
    let out = prefix_numeric(out);
    string_of(&out)
}

/// Create identifiers for variables and types from a string.
pub trait ConstIdentDef {
    /// The text that the identifiers are made from.
    spec fn key_text(&self) -> Seq<char>;

    /// Create a valid variable identifier, formatted as SCREAMING_SNAKE_CASE.
    fn to_variable_ident(&self) -> (ident: String)
        ensures
            ident@ == variable_ident(self.key_text()),
    ;

    /// Create a valid module identifier, formatted as snake_case.
    fn to_module_ident(&self) -> (ident: String)
        ensures
            ident@ == module_ident(self.key_text()),
    ;

    /// Create a valid type identifier, formatted as PascalCase.
    fn to_type_ident(&self) -> (ident: String)
        ensures
            ident@ == type_ident(self.key_text()),
    ;
}

impl ConstIdentDef for str {
    open spec fn key_text(&self) -> Seq<char> {
        self@
    }

    fn to_variable_ident(&self) -> (ident: String) {
        self::to_variable_ident(self)
    }

    fn to_module_ident(&self) -> (ident: String) {
        self::to_module_ident(self)
    }

    fn to_type_ident(&self) -> (ident: String) {
        self::to_type_ident(self)
    }
}

impl ConstIdentDef for String {
    open spec fn key_text(&self) -> Seq<char> {
        self@
    }

    fn to_variable_ident(&self) -> (ident: String) {
        self::to_variable_ident(self.as_str())
    }

    fn to_module_ident(&self) -> (ident: String) {
        self::to_module_ident(self.as_str())
    }

    fn to_type_ident(&self) -> (ident: String) {
        self::to_type_ident(self.as_str())
    }
}

} // verus!
