//! The keyword codec: a bidirectional mapping between single special
//! code-points and bracketed `[NAME]` tokens, with an escaping mini-grammar
//! for literal `[` and `\` characters.

use vstd::prelude::*;

verus! {

/// Relies on String::push: appends the character to the end of the string.
#[verifier::external_body]
pub(crate) fn push_char(s: &mut String, c: char)
    ensures
        final(s)@ == old(s)@.push(c),
{
    s.push(c);
}

/// The name-to-code-point mapping described by a registration list:
/// later registrations of the same name win.
pub open spec fn names_map_of(s: Seq<(String, char)>) -> Map<Seq<char>, char>
    decreases s.len(),
{
    if s.len() == 0 {
        Map::empty()
    } else {
        names_map_of(s.drop_last()).insert(s.last().0@, s.last().1)
    }
}

/// The code-point-to-name mapping described by a registration list:
/// later registrations of the same code-point win.
pub open spec fn ids_map_of(s: Seq<(char, String)>) -> Map<char, Seq<char>>
    decreases s.len(),
{
    if s.len() == 0 {
        Map::empty()
    } else {
        ids_map_of(s.drop_last()).insert(s.last().0, s.last().1@)
    }
}

proof fn lemma_ids_map_found(s: Seq<(char, String)>, i: int, c: char)
    requires
        0 <= i < s.len(),
        s[i].0 == c,
        forall|j: int| i < j < s.len() ==> (#[trigger] s[j]).0 != c,
    ensures
        ids_map_of(s).contains_key(c),
        ids_map_of(s)[c] == s[i].1@,
    decreases s.len(),
{
    if i < s.len() - 1 {
        assert(forall|j: int|
            i < j < s.drop_last().len() ==> (#[trigger] s.drop_last()[j]).0 != c);
        lemma_ids_map_found(s.drop_last(), i, c);
    }
}

proof fn lemma_ids_map_absent(s: Seq<(char, String)>, c: char)
    requires
        forall|j: int| 0 <= j < s.len() ==> (#[trigger] s[j]).0 != c,
    ensures
        !ids_map_of(s).contains_key(c),
    decreases s.len(),
{
    if s.len() > 0 {
        assert(forall|j: int|
            0 <= j < s.drop_last().len() ==> (#[trigger] s.drop_last()[j]).0 != c);
        lemma_ids_map_absent(s.drop_last(), c);
    }
}

proof fn lemma_names_map_found(s: Seq<(String, char)>, i: int, k: Seq<char>)
    requires
        0 <= i < s.len(),
        s[i].0@ == k,
        forall|j: int| i < j < s.len() ==> (#[trigger] s[j]).0@ != k,
    ensures
        names_map_of(s).contains_key(k),
        names_map_of(s)[k] == s[i].1,
    decreases s.len(),
{
    if i < s.len() - 1 {
        assert(forall|j: int|
            i < j < s.drop_last().len() ==> (#[trigger] s.drop_last()[j]).0@ != k);
        lemma_names_map_found(s.drop_last(), i, k);
    }
}

proof fn lemma_names_map_absent(s: Seq<(String, char)>, k: Seq<char>)
    requires
        forall|j: int| 0 <= j < s.len() ==> (#[trigger] s[j]).0@ != k,
    ensures
        !names_map_of(s).contains_key(k),
    decreases s.len(),
{
    if s.len() > 0 {
        assert(forall|j: int|
            0 <= j < s.drop_last().len() ==> (#[trigger] s.drop_last()[j]).0@ != k);
        lemma_names_map_absent(s.drop_last(), k);
    }
}

/// What `decode` emits for one input character.
pub open spec fn decode_char_spec(m: Map<char, Seq<char>>, c: char) -> Seq<char> {
    if m.contains_key(c) {
        seq!['['] + m[c] + seq![']']
    } else if c == '[' {
        seq!['\\', '[']
    } else if c == '\\' {
        seq!['\\', '\\']
    } else {
        seq![c]
    }
}

/// What `decode` emits for a whole input.
pub open spec fn decode_spec(m: Map<char, Seq<char>>, s: Seq<char>) -> Seq<char>
    decreases s.len(),
{
    if s.len() == 0 {
        Seq::empty()
    } else {
        decode_spec(m, s.drop_last()) + decode_char_spec(m, s.last())
    }
}

/// Position of the first `]` at or after `i`, if any.
pub open spec fn find_rbracket_from(s: Seq<char>, i: int) -> Option<int>
    decreases s.len() - i,
{
    if i < 0 || i >= s.len() {
        None
    } else if s[i] == ']' {
        Some(i)
    } else {
        find_rbracket_from(s, i + 1)
    }
}

proof fn lemma_find_rbracket_from(s: Seq<char>, i: int)
    requires
        0 <= i <= s.len(),
    ensures
        match find_rbracket_from(s, i) {
            Some(j) => i <= j < s.len() && s[j] == ']' && (forall|k: int|
                i <= k < j ==> s[k] != ']'),
            None => forall|k: int| i <= k < s.len() ==> s[k] != ']',
        },
    decreases s.len() - i,
{
    if i < s.len() && s[i] != ']' {
        lemma_find_rbracket_from(s, i + 1);
    }
}

/// The ways `encode` can reject an input.
pub enum KeywordEncodeFailure {
    NoCharAfterEscape,
    UselessEscape(char),
    NoCharInBracket,
    UnknownEscape(Seq<char>),
}

/// What `encode` yields for the input suffix starting at `i`: a single
/// left-to-right pass where `\` escapes the next character and `[NAME]`
/// is replaced by the code-point registered for NAME.
pub open spec fn encode_from(m: Map<Seq<char>, char>, s: Seq<char>, i: int) -> Result<
    Seq<char>,
    KeywordEncodeFailure,
>
    decreases s.len() - i,
{
    if i < 0 || i >= s.len() {
        Ok(Seq::empty())
    } else if s[i] == '\\' {
        if i + 1 >= s.len() {
            Err(KeywordEncodeFailure::NoCharAfterEscape)
        } else if s[i + 1] == '\\' || s[i + 1] == '[' {
            match encode_from(m, s, i + 2) {
                Ok(t) => Ok(seq![s[i + 1]] + t),
                Err(e) => Err(e),
            }
        } else {
            Err(KeywordEncodeFailure::UselessEscape(s[i + 1]))
        }
    } else if s[i] == '[' {
        match find_rbracket_from(s, i + 1) {
            None => Err(KeywordEncodeFailure::NoCharInBracket),
            Some(j) => {
                let name = s.subrange(i + 1, j);
                // The two clamps only serve the termination measure: a
                // found bracket index always lies in i + 1 .. s.len().
                let next = if j + 1 < i + 2 {
                    i + 2
                } else if j + 1 > s.len() {
                    s.len() as int
                } else {
                    j + 1
                };
                if m.contains_key(name) {
                    match encode_from(m, s, next) {
                        Ok(t) => Ok(seq![m[name]] + t),
                        Err(e) => Err(e),
                    }
                } else {
                    Err(KeywordEncodeFailure::UnknownEscape(name))
                }
            },
        }
    } else {
        match encode_from(m, s, i + 1) {
            Ok(t) => Ok(seq![s[i]] + t),
            Err(e) => Err(e),
        }
    }
}

/// What `encode` yields for a whole input.
pub open spec fn encode_spec(m: Map<Seq<char>, char>, s: Seq<char>) -> Result<
    Seq<char>,
    KeywordEncodeFailure,
> {
    encode_from(m, s, 0)
}

/// An error that may occur when encoding a text with [`MessageKeyword::encode`].
#[derive(Debug, PartialEq)]
pub enum MessageKeywordEncodeError {
    NoCharAfterEscape,
    UselessEscape(char),
    NoCharInBracket,
    UnknownEscape(String),
}

/// How an executable encode error corresponds to the specification-level one.
pub open spec fn encode_err_matches(e: MessageKeywordEncodeError, f: KeywordEncodeFailure) -> bool {
    match f {
        KeywordEncodeFailure::NoCharAfterEscape => e is NoCharAfterEscape,
        KeywordEncodeFailure::UselessEscape(c) => e == MessageKeywordEncodeError::UselessEscape(c),
        KeywordEncodeFailure::NoCharInBracket => e is NoCharInBracket,
        KeywordEncodeFailure::UnknownEscape(nm) => e is UnknownEscape && e->UnknownEscape_0@
            == nm,
    }
}

/// The name-to-code-point mapping of the built-in default keyword set.
pub open spec fn default_names() -> Map<Seq<char>, char> {
    Map::empty().insert("ORANGE"@, '\u{C101}').insert("PINK"@, '\u{C102}').insert(
        "RED"@,
        '\u{C103}',
    ).insert("GREEN"@, '\u{C104}').insert("LIGHTBLUE"@, '\u{C105}').insert(
        "YELLOW"@,
        '\u{C106}',
    ).insert("WHITE"@, '\u{C107}').insert("GRAY"@, '\u{C108}').insert("PINK"@, '\u{C109}').insert(
        "RED"@,
        '\u{C10A}',
    ).insert("BLACK"@, '\u{C10B}').insert("DARKGRAY"@, '\u{C10C}').insert(
        "DARKGREEN"@,
        '\u{C10D}',
    ).insert("BLUE"@, '\u{C10E}').insert("COLOREND"@, '\u{C10F}').insert(
        "CENTER"@,
        '\u{C200}',
    ).insert("PLAYERNAME"@, '\u{D100}').insert("PARTNERNAME"@, '\u{D200}').insert(
        "PLAYERPOKEMON"@,
        '\u{D301}',
    ).insert("PARTNERPOKEMON"@, '\u{D302}').insert("POKE"@, '\u{A072}').insert(
        "BUTTONA"@,
        '\u{A09B}',
    ).insert("BUTTONB"@, '\u{A09C}').insert("BUTTONX"@, '\u{A09D}').insert(
        "BUTTONY"@,
        '\u{A09E}',
    ).insert("BUTTONL"@, '\u{A09F}').insert("BUTTONR"@, '\u{A0A0}').insert(
        "SPEAKERNORMAL"@,
        '\u{B200}',
    ).insert("SPEAKERHAPPY"@, '\u{B201}').insert("SPEAKERPAINED"@, '\u{B202}').insert(
        "PAUSE"@,
        '\u{EB00}',
    )
}

/// The code-point-to-name mapping of the built-in default keyword set.
pub open spec fn default_ids() -> Map<char, Seq<char>> {
    Map::empty().insert('\u{C101}', "ORANGE"@).insert('\u{C102}', "PINK"@).insert(
        '\u{C103}',
        "RED"@,
    ).insert('\u{C104}', "GREEN"@).insert('\u{C105}', "LIGHTBLUE"@).insert(
        '\u{C106}',
        "YELLOW"@,
    ).insert('\u{C107}', "WHITE"@).insert('\u{C108}', "GRAY"@).insert('\u{C109}', "PINK"@).insert(
        '\u{C10A}',
        "RED"@,
    ).insert('\u{C10B}', "BLACK"@).insert('\u{C10C}', "DARKGRAY"@).insert(
        '\u{C10D}',
        "DARKGREEN"@,
    ).insert('\u{C10E}', "BLUE"@).insert('\u{C10F}', "COLOREND"@).insert(
        '\u{C200}',
        "CENTER"@,
    ).insert('\u{D100}', "PLAYERNAME"@).insert('\u{D200}', "PARTNERNAME"@).insert(
        '\u{D301}',
        "PLAYERPOKEMON"@,
    ).insert('\u{D302}', "PARTNERPOKEMON"@).insert('\u{A072}', "POKE"@).insert(
        '\u{A09B}',
        "BUTTONA"@,
    ).insert('\u{A09C}', "BUTTONB"@).insert('\u{A09D}', "BUTTONX"@).insert(
        '\u{A09E}',
        "BUTTONY"@,
    ).insert('\u{A09F}', "BUTTONL"@).insert('\u{A0A0}', "BUTTONR"@).insert(
        '\u{B200}',
        "SPEAKERNORMAL"@,
    ).insert('\u{B201}', "SPEAKERHAPPY"@).insert('\u{B202}', "SPEAKERPAINED"@).insert(
        '\u{EB00}',
        "PAUSE"@,
    )
}

/// A fixed bidirectional table between special code-points and their names.
pub struct MessageKeyword {
    pub by_name: Vec<(String, char)>,
    pub by_id: Vec<(char, String)>,
}

impl MessageKeyword {
    /// The mapping from a name to the code-point it encodes to.
    pub open spec fn names(&self) -> Map<Seq<char>, char> {
        names_map_of(self.by_name@)
    }

    /// The mapping from a code-point to the name it decodes to.
    pub open spec fn ids(&self) -> Map<char, Seq<char>> {
        ids_map_of(self.by_id@)
    }

    pub fn new_empty() -> (r: Self)
        ensures
            r.names() == Map::<Seq<char>, char>::empty(),
            r.ids() == Map::<char, Seq<char>>::empty(),
    {
        MessageKeyword { by_name: Vec::new(), by_id: Vec::new() }
    }

    /// Build the table with the built-in default set of keywords.
    pub fn new_default() -> (r: Self)
        ensures
            r.names() == default_names(),
            r.ids() == default_ids(),
    {
        let mut keywords = Self::new_empty();
        keywords.add_keyword('\u{C101}', "ORANGE".to_owned());
        keywords.add_keyword('\u{C102}', "PINK".to_owned());
        keywords.add_keyword('\u{C103}', "RED".to_owned());
        keywords.add_keyword('\u{C104}', "GREEN".to_owned());
        keywords.add_keyword('\u{C105}', "LIGHTBLUE".to_owned());
        keywords.add_keyword('\u{C106}', "YELLOW".to_owned());
        keywords.add_keyword('\u{C107}', "WHITE".to_owned());
        keywords.add_keyword('\u{C108}', "GRAY".to_owned());
        keywords.add_keyword('\u{C109}', "PINK".to_owned());
        keywords.add_keyword('\u{C10A}', "RED".to_owned());
        keywords.add_keyword('\u{C10B}', "BLACK".to_owned());
        keywords.add_keyword('\u{C10C}', "DARKGRAY".to_owned());
        keywords.add_keyword('\u{C10D}', "DARKGREEN".to_owned());
        keywords.add_keyword('\u{C10E}', "BLUE".to_owned());
        keywords.add_keyword('\u{C10F}', "COLOREND".to_owned());
        keywords.add_keyword('\u{C200}', "CENTER".to_owned());
        keywords.add_keyword('\u{D100}', "PLAYERNAME".to_owned());
        keywords.add_keyword('\u{D200}', "PARTNERNAME".to_owned());
        keywords.add_keyword('\u{D301}', "PLAYERPOKEMON".to_owned());
        keywords.add_keyword('\u{D302}', "PARTNERPOKEMON".to_owned());
        keywords.add_keyword('\u{A072}', "POKE".to_owned());
        keywords.add_keyword('\u{A09B}', "BUTTONA".to_owned());
        keywords.add_keyword('\u{A09C}', "BUTTONB".to_owned());
        keywords.add_keyword('\u{A09D}', "BUTTONX".to_owned());
        keywords.add_keyword('\u{A09E}', "BUTTONY".to_owned());
        keywords.add_keyword('\u{A09F}', "BUTTONL".to_owned());
        keywords.add_keyword('\u{A0A0}', "BUTTONR".to_owned());
        keywords.add_keyword('\u{B200}', "SPEAKERNORMAL".to_owned());
        keywords.add_keyword('\u{B201}', "SPEAKERHAPPY".to_owned());
        keywords.add_keyword('\u{B202}', "SPEAKERPAINED".to_owned());
        keywords.add_keyword('\u{EB00}', "PAUSE".to_owned());
        keywords
    }

    pub fn add_keyword(&mut self, id: char, text: String)
        ensures
            final(self).names() == old(self).names().insert(text@, id),
            final(self).ids() == old(self).ids().insert(id, text@),
    {
        self.by_id.push((id, text.clone()));
        self.by_name.push((text, id));
        proof {
            assert(self.by_id@.drop_last() =~= old(self).by_id@);
            assert(self.by_name@.drop_last() =~= old(self).by_name@);
        }
    }

    fn lookup_name(&self, c: char) -> (r: Option<&String>)
        ensures
            match r {
                Some(t) => self.ids().contains_key(c) && t@ == self.ids()[c],
                None => !self.ids().contains_key(c),
            },
    {
        let mut i: usize = self.by_id.len();
        while i > 0
            invariant
                0 <= i <= self.by_id.len(),
                forall|j: int| i <= j < self.by_id@.len() ==> (#[trigger] self.by_id@[j]).0 != c,
            decreases i,
        {
            i -= 1;
            if self.by_id[i].0 == c {
                proof {
                    lemma_ids_map_found(self.by_id@, i as int, c);
                }
                return Some(&self.by_id[i].1);
            }
        }
        proof {
            lemma_ids_map_absent(self.by_id@, c);
        }
        None
    }

    fn lookup_id(&self, name: &String) -> (r: Option<char>)
        ensures
            match r {
                Some(id) => self.names().contains_key(name@) && id == self.names()[name@],
                None => !self.names().contains_key(name@),
            },
    {
        let mut i: usize = self.by_name.len();
        while i > 0
            invariant
                0 <= i <= self.by_name.len(),
                forall|j: int|
                    i <= j < self.by_name@.len() ==> (#[trigger] self.by_name@[j]).0@ != name@,
            decreases i,
        {
            i -= 1;
            if self.by_name[i].0.eq(name) {
                proof {
                    lemma_names_map_found(self.by_name@, i as int, name@);
                }
                return Some(self.by_name[i].1);
            }
        }
        proof {
            lemma_names_map_absent(self.by_name@, name@);
        }
        None
    }

    /// Turn a raw text into its human-readable form: each mapped code-point
    /// becomes `[NAME]`, literal `[` and `\` are escaped, everything else is
    /// passed through. Total: never fails.
    pub fn decode(&self, input: &str) -> (r: String)
        ensures
            r@ == decode_spec(self.ids(), input@),
    {
        let mut result = String::new();
        let n = input.unicode_len();
        let mut i: usize = 0;
        while i < n
            invariant
                n == input@.len(),
                0 <= i <= n,
                result@ == decode_spec(self.ids(), input@.take(i as int)),
            decreases n - i,
        {
            let c = input.get_char(i);
            match self.lookup_name(c) {
                Some(element) => {
                    push_char(&mut result, '[');
                    result.append(element.as_str());
                    push_char(&mut result, ']');
                    proof {
                        assert(result@ =~= decode_spec(self.ids(), input@.take(i as int))
                            + decode_char_spec(self.ids(), c));
                    }
                },
                None => {
                    if c == '[' {
                        push_char(&mut result, '\\');
                        push_char(&mut result, '[');
                    } else if c == '\\' {
                        push_char(&mut result, '\\');
                        push_char(&mut result, '\\');
                    } else {
                        push_char(&mut result, c);
                    }
                    proof {
                        assert(result@ =~= decode_spec(self.ids(), input@.take(i as int))
                            + decode_char_spec(self.ids(), c));
                    }
                },
            }
            proof {
                let pre = input@.take(i as int);
                let cur = input@.take(i + 1 as int);
                assert(cur.drop_last() =~= pre);
                assert(cur.last() == input@[i as int]);
            }
            i += 1;
        }
        proof {
            assert(input@.take(n as int) =~= input@);
        }
        result
    }

    /// Turn a human-readable text back into its raw form. Fails when a `\`
    /// ends the input or escapes a character that needs no escape, when a
    /// `[` is never closed, and when a bracketed name is not in the table.
    pub fn encode(&self, decoded: &str) -> (r: Result<String, MessageKeywordEncodeError>)
        ensures
            match encode_spec(self.names(), decoded@) {
                Ok(t) => r is Ok && r->Ok_0@ == t,
                Err(f) => r is Err && encode_err_matches(r->Err_0, f),
            },
    {
        let ghost m = self.names();
        let ghost s = decoded@;
        let mut result = String::new();
        let n = decoded.unicode_len();
        let mut i: usize = 0;
        while i < n
            invariant
                m == self.names(),
                s == decoded@,
                n == s.len(),
                0 <= i <= n,
                match encode_from(m, s, i as int) {
                    Ok(t) => encode_from(m, s, 0) == Ok::<Seq<char>, KeywordEncodeFailure>(
                        result@ + t,
                    ),
                    Err(e) => encode_from(m, s, 0) == Err::<Seq<char>, KeywordEncodeFailure>(e),
                },
            decreases n - i,
        {
            let c = decoded.get_char(i);
            if c == '\\' {
                if i + 1 >= n {
                    return Err(MessageKeywordEncodeError::NoCharAfterEscape);
                }
                let esc = decoded.get_char(i + 1);
                if esc == '\\' || esc == '[' {
                    let ghost r0 = result@;
                    push_char(&mut result, esc);
                    proof {
                        if let Ok(t) = encode_from(m, s, i + 2) {
                            assert(r0 + (seq![esc] + t) =~= result@ + t);
                        }
                    }
                    i += 2;
                } else {
                    return Err(MessageKeywordEncodeError::UselessEscape(esc));
                }
            } else if c == '[' {
                let mut j = i + 1;
                while j < n && decoded.get_char(j) != ']'
                    invariant
                        s == decoded@,
                        n == s.len(),
                        i + 1 <= j <= n,
                        forall|k: int| i + 1 <= k < j ==> s[k] != ']',
                    decreases n - j,
                {
                    j += 1;
                }
                proof {
                    lemma_find_rbracket_from(s, i + 1 as int);
                }
                if j >= n {
                    assert(find_rbracket_from(s, i + 1 as int) is None);
                    return Err(MessageKeywordEncodeError::NoCharInBracket);
                }
                assert(s[j as int] == ']');
                assert(find_rbracket_from(s, i + 1 as int) == Some(j as int));
                let name = decoded.substring_char(i + 1, j).to_owned();
                match self.lookup_id(&name) {
                    Some(id) => {
                        let ghost r0 = result@;
                        push_char(&mut result, id);
                        proof {
                            if let Ok(t) = encode_from(m, s, j + 1 as int) {
                                assert(r0 + (seq![id] + t) =~= result@ + t);
                            }
                        }
                        i = j + 1;
                    },
                    None => {
                        return Err(MessageKeywordEncodeError::UnknownEscape(name));
                    },
                }
            } else {
                let ghost r0 = result@;
                push_char(&mut result, c);
                proof {
                    if let Ok(t) = encode_from(m, s, i + 1) {
                        assert(r0 + (seq![c] + t) =~= result@ + t);
                    }
                }
                i += 1;
            }
        }
        Ok(result)
    }
}

/// Each name registered in `names` decodes back to itself: the code-point it
/// encodes to is mapped, and mapped to that very name.
pub open spec fn table_consistent(names: Map<Seq<char>, char>, ids: Map<char, Seq<char>>) -> bool {
    forall|nm: Seq<char>| #[trigger]
        names.contains_key(nm) ==> ids.contains_key(names[nm]) && ids[names[nm]] == nm
}

proof fn lemma_decode_concat(m: Map<char, Seq<char>>, a: Seq<char>, b: Seq<char>)
    ensures
        decode_spec(m, a + b) == decode_spec(m, a) + decode_spec(m, b),
    decreases b.len(),
{
    if b.len() == 0 {
        assert(a + b =~= a);
        assert(decode_spec(m, a) + decode_spec(m, b) =~= decode_spec(m, a));
    } else {
        assert((a + b).drop_last() =~= a + b.drop_last());
        assert((a + b).last() == b.last());
        lemma_decode_concat(m, a, b.drop_last());
        assert(decode_spec(m, a) + decode_spec(m, b.drop_last()) + decode_char_spec(m, b.last())
            =~= decode_spec(m, a) + decode_spec(m, b));
    }
}

proof fn lemma_decode_singleton(m: Map<char, Seq<char>>, c: char)
    ensures
        decode_spec(m, seq![c]) == decode_char_spec(m, c),
{
    let s = seq![c];
    assert(s.drop_last() =~= Seq::<char>::empty());
    assert(s.last() == c);
    assert(decode_spec(m, Seq::<char>::empty()) == Seq::<char>::empty());
    assert(decode_spec(m, s) == decode_spec(m, s.drop_last()) + decode_char_spec(m, s.last()));
    assert(Seq::<char>::empty() + decode_char_spec(m, c) =~= decode_char_spec(m, c));
}

proof fn lemma_roundtrip_from(
    names: Map<Seq<char>, char>,
    ids: Map<char, Seq<char>>,
    t: Seq<char>,
    i: int,
)
    requires
        table_consistent(names, ids),
        0 <= i <= t.len(),
        forall|k: int| 0 <= k < t.len() ==> !ids.contains_key(t[k]),
        encode_from(names, t, i) is Ok,
    ensures
        decode_spec(ids, encode_from(names, t, i)->Ok_0) == t.skip(i),
    decreases t.len() - i,
{
    if i >= t.len() {
        assert(t.skip(i) =~= Seq::<char>::empty());
    } else if t[i] == '\\' {
        let e = t[i + 1];
        let rest = encode_from(names, t, i + 2)->Ok_0;
        lemma_roundtrip_from(names, ids, t, i + 2);
        lemma_decode_concat(ids, seq![e], rest);
        lemma_decode_singleton(ids, e);
        assert(!ids.contains_key(e));
        assert(decode_char_spec(ids, e) =~= seq!['\\', e]);
        assert(seq!['\\', e] + t.skip(i + 2) =~= t.skip(i));
    } else if t[i] == '[' {
        lemma_find_rbracket_from(t, i + 1);
        let j = find_rbracket_from(t, i + 1)->0;
        let name = t.subrange(i + 1, j);
        let id = names[name];
        let rest = encode_from(names, t, j + 1)->Ok_0;
        lemma_roundtrip_from(names, ids, t, j + 1);
        lemma_decode_concat(ids, seq![id], rest);
        lemma_decode_singleton(ids, id);
        assert(ids.contains_key(id) && ids[id] == name);
        assert(decode_char_spec(ids, id) == seq!['['] + name + seq![']']);
        assert((seq!['['] + name + seq![']']) + t.skip(j + 1) =~= t.skip(i));
    } else {
        let rest = encode_from(names, t, i + 1)->Ok_0;
        lemma_roundtrip_from(names, ids, t, i + 1);
        lemma_decode_concat(ids, seq![t[i]], rest);
        lemma_decode_singleton(ids, t[i]);
        assert(decode_char_spec(ids, t[i]) =~= seq![t[i]]);
        assert(seq![t[i]] + t.skip(i + 1) =~= t.skip(i));
    }
}

/// Law: decoding the result of a successful encode gives the input back,
/// for every consistent table and every input none of whose characters is
/// itself a mapped code-point.
pub proof fn lemma_decode_encode_roundtrip(
    names: Map<Seq<char>, char>,
    ids: Map<char, Seq<char>>,
    t: Seq<char>,
)
    requires
        table_consistent(names, ids),
        forall|k: int| 0 <= k < t.len() ==> !ids.contains_key(t[k]),
        encode_spec(names, t) is Ok,
    ensures
        decode_spec(ids, encode_spec(names, t)->Ok_0) == t,
{
    lemma_roundtrip_from(names, ids, t, 0);
    assert(t.skip(0) =~= t);
}

} // verus!
