//! The identifier model: case-rendered token sequences (`Name`) and
//! sequences of names (`QualifiedName`), the canonical symbol-table keys.
//!
//! A `Name` is built from raw text by sanitizing a few forbidden characters
//! and then splitting on lowercase-to-uppercase transitions. Rendering a
//! name back to text follows its case tag; a qualified name renders as its
//! names joined with `.`.

use vstd::prelude::*;

verus! {

/// How a `Name`'s raw tokens are rendered when the name is turned into text.
#[derive(Clone, Copy, Debug, PartialEq, Eq, Structural)]
pub enum NameCase {
    SnakeCase,
    ScreamingSnakeCase,
    UpperCamelCase,
    LowerCamelCase,
    Fixed,
}

/// An identifier: an ordered sequence of raw string tokens plus the case
/// used to render them. Two names are equal exactly when their token
/// sequences and case tags are equal.
#[derive(Debug)]
pub struct Name {
    pub tokens: Vec<String>,
    pub case: NameCase,
}

/// Mathematical model of a `Name`: the token texts and the case tag.
#[verifier::ext_equal]
pub ghost struct NameModel {
    pub tokens: Seq<Seq<char>>,
    pub case: NameCase,
}

impl View for Name {
    type V = NameModel;

    open spec fn view(&self) -> NameModel {
        NameModel { tokens: self.tokens.deep_view(), case: self.case }
    }
}

impl DeepView for Name {
    type V = NameModel;

    open spec fn deep_view(&self) -> NameModel {
        self.view()
    }
}

/// An ordered sequence of names; the canonical symbol-table key. Renders
/// as the names joined with `.`.
#[derive(Debug)]
pub struct QualifiedName {
    pub names: Vec<Name>,
}

impl View for QualifiedName {
    type V = Seq<NameModel>;

    open spec fn view(&self) -> Seq<NameModel> {
        self.names.deep_view()
    }
}

impl DeepView for QualifiedName {
    type V = Seq<NameModel>;

    open spec fn deep_view(&self) -> Seq<NameModel> {
        self.view()
    }
}

/// What `str::to_lowercase` returns for the given characters.
pub uninterp spec fn lower_of(s: Seq<char>) -> Seq<char>;

/// What `str::to_uppercase` returns for the given characters.
pub uninterp spec fn upper_of(s: Seq<char>) -> Seq<char>;

/// Whether `char::is_uppercase` holds of the character.
pub uninterp spec fn is_upper_char(c: char) -> bool;

/// Whether `char::is_lowercase` holds of the character.
pub uninterp spec fn is_lower_char(c: char) -> bool;

/// Relies on `String::push`: appends exactly the one character.
#[verifier::external_body]
fn push_char(s: &mut String, c: char)
    ensures
        final(s)@ == old(s)@.push(c),
{
    s.push(c);
}

/// Relies on `str::to_lowercase`: the result is a function of the
/// characters alone.
#[verifier::external_body]
fn lowercase(s: &str) -> (r: String)
    ensures
        r@ == lower_of(s@),
{
    s.to_lowercase()
}

/// Relies on `str::to_uppercase`: the result is a function of the
/// characters alone.
#[verifier::external_body]
fn uppercase(s: &str) -> (r: String)
    ensures
        r@ == upper_of(s@),
{
    s.to_uppercase()
}

/// Relies on `char::is_uppercase`: a property of the character alone.
#[verifier::external_body]
fn char_is_uppercase(c: char) -> (r: bool)
    ensures
        r == is_upper_char(c),
{
    c.is_uppercase()
}

/// Relies on `char::is_lowercase`: a property of the character alone.
#[verifier::external_body]
fn char_is_lowercase(c: char) -> (r: bool)
    ensures
        r == is_lower_char(c),
{
    c.is_lowercase()
}

/// What one character contributes to a sanitized text: `/` becomes `_`,
/// `+` becomes `_plus`, anything else passes through.
pub open spec fn sanitized_char(c: char) -> Seq<char> {
    if c == '/' {
        seq!['_']
    } else if c == '+' {
        seq!['_', 'p', 'l', 'u', 's']
    } else {
        seq![c]
    }
}

/// The text with every forbidden character replaced.
pub open spec fn sanitized(s: Seq<char>) -> Seq<char>
    decreases s.len(),
{
    if s.len() == 0 {
        Seq::empty()
    } else {
        sanitized(s.drop_last()) + sanitized_char(s.last())
    }
}

/// The tokens still to be produced when scanning `s` from position `i`
/// with `current` as the token under construction and `last_lower` telling
/// whether the previous character was lowercase. A lowercase-to-uppercase
/// transition closes the current token; a final nonempty token is kept.
pub open spec fn tokens_from(s: Seq<char>, i: int, current: Seq<char>, last_lower: bool) -> Seq<
    Seq<char>,
>
    decreases s.len() - i,
{
    if i < 0 || i >= s.len() {
        if current.len() == 0 {
            Seq::empty()
        } else {
            seq![current]
        }
    } else {
        let c = s[i];
        if last_lower && is_upper_char(c) {
            seq![current] + tokens_from(s, i + 1, seq![c], is_lower_char(c))
        } else {
            tokens_from(s, i + 1, current.push(c), is_lower_char(c))
        }
    }
}

/// The tokens of a text: split on each lowercase-to-uppercase boundary.
pub open spec fn tokenized(s: Seq<char>) -> Seq<Seq<char>> {
    tokens_from(s, 0, Seq::empty(), false)
}

impl Name {
    /// Construct a name from raw text: sanitize forbidden characters, then
    /// split into tokens on camel-case boundaries. The result renders fixed.
    pub fn from(name: &str) -> (r: Name)
        ensures
            r@.tokens == tokenized(sanitized(name@)),
            r@.case == NameCase::Fixed,
    {
        let clean = sanitize(name);
        let tokens = tokenize(clean.as_str());
        Name { tokens, case: NameCase::Fixed }
    }

    /// The name with one raw token put in front; the case tag is kept.
    pub fn with_prepended(&self, prepended_token: &str) -> (r: Name)
        ensures
            r@.tokens == seq![prepended_token@] + self@.tokens,
            r@.case == self@.case,
    {
        let mut tokens: Vec<String> = Vec::new();
        tokens.push(prepended_token.to_owned());
        let mut i: usize = 0;
        while i < self.tokens.len()
            invariant
                i <= self.tokens.len(),
                tokens.deep_view() == seq![prepended_token@] + self@.tokens.take(i as int),
            decreases self.tokens.len() - i,
        {
            let ghost pre = tokens.deep_view();
            tokens.push(self.tokens[i].clone());
            proof {
                assert forall|j: int| 0 <= j < pre.len() implies tokens.deep_view()[j] == pre[j] by {
                    assert(tokens@[j] == tokens@.drop_last()[j]);
                }
                assert(tokens.deep_view() =~= pre.push(self@.tokens[i as int]));
                assert(tokens.deep_view() =~= seq![prepended_token@] + self@.tokens.take(
                    i as int + 1,
                ));
            }
            i = i + 1;
        }
        proof {
            assert(self@.tokens.take(self.tokens.len() as int) =~= self@.tokens);
            assert(tokens.deep_view() =~= seq![prepended_token@] + self@.tokens);
        }
        Name { tokens, case: self.case }
    }
}

/// The text with `/` replaced by `_` and `+` replaced by `_plus`.
fn sanitize(name: &str) -> (r: String)
    ensures
        r@ == sanitized(name@),
{
    let len = name.unicode_len();
    let mut out = String::new();
    let mut i: usize = 0;
    while i < len
        invariant
            i <= len,
            len == name@.len(),
            out@ == sanitized(name@.take(i as int)),
        decreases len - i,
    {
        let c = name.get_char(i);
        if c == '/' {
            push_char(&mut out, '_');
        } else if c == '+' {
            out.append("_plus");
            proof {
                reveal_strlit("_plus");
                assert("_plus"@ =~= seq!['_', 'p', 'l', 'u', 's']);
            }
        } else {
            push_char(&mut out, c);
        }
        proof {
            let pre = name@.take(i as int + 1);
            assert(pre.drop_last() =~= name@.take(i as int));
            assert(pre.last() == c);
            assert(out@ =~= sanitized(name@.take(i as int + 1)));
        }
        i = i + 1;
    }
    proof {
        assert(name@.take(len as int) =~= name@);
    }
    out
}

/// Split sanitized text into tokens on lowercase-to-uppercase boundaries.
fn tokenize(s: &str) -> (r: Vec<String>)
    ensures
        r.deep_view() == tokenized(s@),
{
    let len = s.unicode_len();
    let mut done: Vec<String> = Vec::new();
    let mut current = String::new();
    let mut last_lower = false;
    let mut i: usize = 0;
    while i < len
        invariant
            i <= len,
            len == s@.len(),
            tokenized(s@) == done.deep_view() + tokens_from(s@, i as int, current@, last_lower),
        decreases len - i,
    {
        let c = s.get_char(i);
        let ghost done_pre = done.deep_view();
        let ghost current_pre = current@;
        let ghost ll_pre = last_lower;
        if last_lower && char_is_uppercase(c) {
            done.push(current);
            current = String::new();
            push_char(&mut current, c);
            proof {
                assert(current@ =~= seq![c]);
                assert(done.deep_view() =~= done_pre.push(current_pre));
            }
        } else {
            push_char(&mut current, c);
        }
        last_lower = char_is_lowercase(c);
        proof {
            assert(tokens_from(s@, i as int, current_pre, ll_pre) == if ll_pre && is_upper_char(c) {
                seq![current_pre] + tokens_from(s@, i as int + 1, seq![c], is_lower_char(c))
            } else {
                tokens_from(s@, i as int + 1, current_pre.push(c), is_lower_char(c))
            });
            assert(done.deep_view() + tokens_from(s@, i as int + 1, current@, last_lower)
                =~= done_pre + tokens_from(s@, i as int, current_pre, ll_pre));
        }
        i = i + 1;
    }
    let ghost done_pre = done.deep_view();
    let ghost current_pre = current@;
    if !current.as_str().is_empty() {
        done.push(current);
        proof {
            assert(done.deep_view() =~= done_pre.push(current_pre));
        }
    }
    proof {
        assert(tokenized(s@) =~= done.deep_view());
    }
    done
}

/// The parts joined with the separator between consecutive parts.
pub open spec fn joined(parts: Seq<Seq<char>>, sep: Seq<char>) -> Seq<char>
    decreases parts.len(),
{
    if parts.len() == 0 {
        Seq::empty()
    } else if parts.len() == 1 {
        parts[0]
    } else {
        joined(parts.drop_last(), sep) + sep + parts.last()
    }
}

/// A token with its first character uppercased and the rest lowercased;
/// empty tokens stay empty.
pub open spec fn capitalized(t: Seq<char>) -> Seq<char> {
    if t.len() == 0 {
        Seq::empty()
    } else {
        upper_of(t.take(1)) + lower_of(t.skip(1))
    }
}

/// The text with `_` appended when it collides with a reserved word.
pub open spec fn with_reserved_mark(s: Seq<char>, reserved: Seq<Seq<char>>) -> Seq<char> {
    if reserved.contains(s) {
        s.push('_')
    } else {
        s
    }
}


/// Each token lowercased.
pub open spec fn lowered(ts: Seq<Seq<char>>) -> Seq<Seq<char>> {
    ts.map_values(|t: Seq<char>| lower_of(t))
}

/// Each token uppercased.
pub open spec fn uppered(ts: Seq<Seq<char>>) -> Seq<Seq<char>> {
    ts.map_values(|t: Seq<char>| upper_of(t))
}

/// Each token capitalized.
pub open spec fn capitalized_all(ts: Seq<Seq<char>>) -> Seq<Seq<char>> {
    ts.map_values(|t: Seq<char>| capitalized(t))
}

/// Each name rendered under its own case rule.
pub open spec fn rendered_all(q: Seq<NameModel>) -> Seq<Seq<char>> {
    q.map_values(|n: NameModel| render_name(n))
}

/// The text a name renders to under its own case rule.
pub open spec fn render_name(n: NameModel) -> Seq<char> {
    match n.case {
        NameCase::Fixed => joined(n.tokens, Seq::empty()),
        NameCase::SnakeCase => joined(lowered(n.tokens), seq!['_']),
        NameCase::ScreamingSnakeCase => joined(uppered(n.tokens), seq!['_']),
        NameCase::UpperCamelCase => joined(capitalized_all(n.tokens), Seq::empty()),
        NameCase::LowerCamelCase => if n.tokens.len() == 0 {
            Seq::empty()
        } else {
            lower_of(n.tokens[0]) + joined(
                capitalized_all(n.tokens.drop_first()),
                Seq::empty(),
            )
        },
    }
}

/// The text a qualified name renders to: its names, each under its own
/// case rule, joined with `.`.
pub open spec fn render_qualified(q: Seq<NameModel>) -> Seq<char> {
    joined(rendered_all(q), seq!['.'])
}

/// Whether `p` is a prefix of `q`, name by name.
pub open spec fn is_prefix_of(p: Seq<NameModel>, q: Seq<NameModel>) -> bool {
    p.len() <= q.len() && p =~= q.take(p.len() as int)
}

/// Character-wise equality of two text slices.
pub(crate) fn str_eq(a: &str, b: &str) -> (r: bool)
    ensures
        r == (a@ == b@),
{
    let alen = a.unicode_len();
    let blen = b.unicode_len();
    if alen != blen {
        return false;
    }
    let mut i: usize = 0;
    while i < alen
        invariant
            i <= alen,
            alen == a@.len(),
            alen == b@.len(),
            forall|j: int| 0 <= j < i ==> a@[j] == b@[j],
        decreases alen - i,
    {
        if a.get_char(i) != b.get_char(i) {
            return false;
        }
        i = i + 1;
    }
    proof {
        assert(a@ =~= b@);
    }
    true
}

/// The parts joined into one string with the separator between them.
fn join_with(parts: &Vec<String>, sep: &str) -> (r: String)
    ensures
        r@ == joined(parts.deep_view(), sep@),
{
    let mut out = String::new();
    let mut i: usize = 0;
    while i < parts.len()
        invariant
            i <= parts.len(),
            out@ == joined(parts.deep_view().take(i as int), sep@),
        decreases parts.len() - i,
    {
        if i > 0 {
            out.append(sep);
        }
        out.append(parts[i].as_str());
        proof {
            let pre = parts.deep_view().take(i as int + 1);
            assert(pre.drop_last() =~= parts.deep_view().take(i as int));
            assert(pre.last() == parts.deep_view()[i as int]);
            if i == 0 {
                assert(out@ =~= joined(pre, sep@));
            } else {
                assert(out@ =~= joined(pre, sep@));
            }
        }
        i = i + 1;
    }
    proof {
        assert(parts.deep_view().take(parts.len() as int) =~= parts.deep_view());
    }
    out
}

/// Each token lowercased.
fn map_lowercase(tokens: &Vec<String>) -> (r: Vec<String>)
    ensures
        r.deep_view() == lowered(tokens.deep_view()),
{
    let mut out: Vec<String> = Vec::new();
    let mut i: usize = 0;
    while i < tokens.len()
        invariant
            i <= tokens.len(),
            out.deep_view() == lowered(tokens.deep_view().take(i as int)),
        decreases tokens.len() - i,
    {
        let ghost pre = out.deep_view();
        let ghost prev = out@;
        out.push(lowercase(tokens[i].as_str()));
        proof {
            assert(out.deep_view().len() == pre.len() + 1);
            assert forall|j: int| 0 <= j < pre.len() implies out.deep_view()[j] == pre[j] by {
                assert(out@[j] == prev[j]);
                assert(pre[j] == prev[j].deep_view());
            }
            assert(out.deep_view()[i as int] == lower_of(tokens.deep_view()[i as int]));
            let ghost target = lowered(tokens.deep_view().take(i as int + 1));
            assert(target.len() == i + 1);
            assert(out.deep_view().len() == i + 1);
            assert forall|j: int| 0 <= j < i + 1 implies out.deep_view()[j] == target[j] by {
                assert(target[j] == lower_of(tokens.deep_view().take(i as int + 1)[j]));
                assert(tokens.deep_view().take(i as int + 1)[j] == tokens.deep_view()[j]);
                if j < i {
                    assert(out.deep_view()[j] == pre[j]);
                    assert(pre[j] == lowered(tokens.deep_view().take(i as int))[j]);
                    assert(pre[j] == lower_of(tokens.deep_view().take(i as int)[j]));
                }
            }
            assert(out.deep_view() =~= lowered(tokens.deep_view().take(i as int + 1)));
        }
        i = i + 1;
    }
    proof {
        assert(tokens.deep_view().take(tokens.len() as int) =~= tokens.deep_view());
    }
    out
}

/// Each token uppercased.
fn map_uppercase(tokens: &Vec<String>) -> (r: Vec<String>)
    ensures
        r.deep_view() == uppered(tokens.deep_view()),
{
    let mut out: Vec<String> = Vec::new();
    let mut i: usize = 0;
    while i < tokens.len()
        invariant
            i <= tokens.len(),
            out.deep_view() == uppered(tokens.deep_view().take(i as int)),
        decreases tokens.len() - i,
    {
        let ghost pre = out.deep_view();
        let ghost prev = out@;
        out.push(uppercase(tokens[i].as_str()));
        proof {
            assert(out.deep_view().len() == pre.len() + 1);
            assert forall|j: int| 0 <= j < pre.len() implies out.deep_view()[j] == pre[j] by {
                assert(out@[j] == prev[j]);
                assert(pre[j] == prev[j].deep_view());
            }
            assert(out.deep_view()[i as int] == upper_of(tokens.deep_view()[i as int]));
            let ghost target = uppered(tokens.deep_view().take(i as int + 1));
            assert(target.len() == i + 1);
            assert(out.deep_view().len() == i + 1);
            assert forall|j: int| 0 <= j < i + 1 implies out.deep_view()[j] == target[j] by {
                assert(target[j] == upper_of(tokens.deep_view().take(i as int + 1)[j]));
                assert(tokens.deep_view().take(i as int + 1)[j] == tokens.deep_view()[j]);
                if j < i {
                    assert(out.deep_view()[j] == pre[j]);
                    assert(pre[j] == uppered(tokens.deep_view().take(i as int))[j]);
                    assert(pre[j] == upper_of(tokens.deep_view().take(i as int)[j]));
                }
            }
            assert(out.deep_view() =~= uppered(tokens.deep_view().take(i as int + 1)));
        }
        i = i + 1;
    }
    proof {
        assert(tokens.deep_view().take(tokens.len() as int) =~= tokens.deep_view());
    }
    out
}

/// The token with its first character uppercased and the rest lowercased.
fn capitalize(t: &str) -> (r: String)
    ensures
        r@ == capitalized(t@),
{
    let len = t.unicode_len();
    if len == 0 {
        let r = String::new();
        proof {
            assert(r@ =~= capitalized(t@));
        }
        return r;
    }
    let head = t.substring_char(0, 1);
    let rest = t.substring_char(1, len);
    let upper_head = uppercase(head);
    let lower_rest = lowercase(rest);
    let r = upper_head.concat(lower_rest.as_str());
    proof {
        assert(head@ =~= t@.take(1));
        assert(rest@ =~= t@.skip(1));
    }
    r
}

/// Each token capitalized.
fn map_capitalize(tokens: &Vec<String>) -> (r: Vec<String>)
    ensures
        r.deep_view() == capitalized_all(tokens.deep_view()),
{
    let mut out: Vec<String> = Vec::new();
    let mut i: usize = 0;
    while i < tokens.len()
        invariant
            i <= tokens.len(),
            out.deep_view() == capitalized_all(tokens.deep_view().take(i as int)),
        decreases tokens.len() - i,
    {
        let ghost pre = out.deep_view();
        let ghost prev = out@;
        out.push(capitalize(tokens[i].as_str()));
        proof {
            assert(out.deep_view().len() == pre.len() + 1);
            assert forall|j: int| 0 <= j < pre.len() implies out.deep_view()[j] == pre[j] by {
                assert(out@[j] == prev[j]);
                assert(pre[j] == prev[j].deep_view());
            }
            assert(out.deep_view()[i as int] == capitalized(tokens.deep_view()[i as int]));
            let ghost target = capitalized_all(tokens.deep_view().take(i as int + 1));
            assert(target.len() == i + 1);
            assert(out.deep_view().len() == i + 1);
            assert forall|j: int| 0 <= j < i + 1 implies out.deep_view()[j] == target[j] by {
                assert(target[j] == capitalized(tokens.deep_view().take(i as int + 1)[j]));
                assert(tokens.deep_view().take(i as int + 1)[j] == tokens.deep_view()[j]);
                if j < i {
                    assert(out.deep_view()[j] == pre[j]);
                    assert(pre[j] == capitalized_all(tokens.deep_view().take(i as int))[j]);
                    assert(pre[j] == capitalized(tokens.deep_view().take(i as int)[j]));
                }
            }
            assert(out.deep_view() =~= capitalized_all(tokens.deep_view().take(i as int + 1)));
        }
        i = i + 1;
    }
    proof {
        assert(tokens.deep_view().take(tokens.len() as int) =~= tokens.deep_view());
    }
    out
}

impl Name {
    /// Append `_` when the rendered text collides with a reserved word.
    fn check_reserved(s: String, reserved: &[&str]) -> (r: String)
        ensures
            r@ == with_reserved_mark(s@, reserved.deep_view()),
    {
        let mut k: usize = 0;
        while k < reserved.len()
            invariant
                k <= reserved.len(),
                forall|j: int| 0 <= j < k ==> reserved.deep_view()[j] != s@,
            decreases reserved.len() - k,
        {
            let entry = *vstd::slice::slice_index_get(reserved, k);
            if str_eq(s.as_str(), entry) {
                let r = s.concat("_");
                proof {
                    reveal_strlit("_");
                    assert(reserved.deep_view()[k as int] == s@);
                    assert(reserved.deep_view().contains(s@));
                    assert(r@ =~= s@.push('_'));
                }
                return r;
            }
            k = k + 1;
        }
        proof {
            assert(!reserved.deep_view().contains(s@));
        }
        s
    }

    /// The tokens joined as they are.
    pub fn to_fixed_case(&self) -> (r: String)
        ensures
            r@ == joined(self@.tokens, Seq::empty()),
    {
        let r = join_with(&self.tokens, "");
        proof {
            reveal_strlit("");
            assert(""@ =~= Seq::<char>::empty());
        }
        r
    }

    /// The tokens lowercased and joined with `_`, marked when reserved.
    pub fn to_snake_case(&self, reserved: &[&str]) -> (r: String)
        ensures
            r@ == with_reserved_mark(
                joined(lowered(self@.tokens), seq!['_']),
                reserved.deep_view(),
            ),
    {
        let lowered = map_lowercase(&self.tokens);
        let joined_text = join_with(&lowered, "_");
        proof {
            reveal_strlit("_");
            assert("_"@ =~= seq!['_']);
        }
        Name::check_reserved(joined_text, reserved)
    }

    /// The tokens uppercased and joined with `_`, marked when reserved.
    pub fn to_screaming_snake_case(&self, reserved: &[&str]) -> (r: String)
        ensures
            r@ == with_reserved_mark(
                joined(uppered(self@.tokens), seq!['_']),
                reserved.deep_view(),
            ),
    {
        let uppered = map_uppercase(&self.tokens);
        let joined_text = join_with(&uppered, "_");
        proof {
            reveal_strlit("_");
            assert("_"@ =~= seq!['_']);
        }
        Name::check_reserved(joined_text, reserved)
    }

    /// The tokens capitalized and concatenated, marked when reserved.
    pub fn to_upper_camel_case(&self, reserved: &[&str]) -> (r: String)
        ensures
            r@ == with_reserved_mark(
                joined(capitalized_all(self@.tokens), Seq::empty()),
                reserved.deep_view(),
            ),
    {
        let capped = map_capitalize(&self.tokens);
        let joined_text = join_with(&capped, "");
        proof {
            reveal_strlit("");
            assert(""@ =~= Seq::<char>::empty());
        }
        Name::check_reserved(joined_text, reserved)
    }

    /// The first token lowercased, the rest capitalized and concatenated,
    /// marked when reserved; an empty name renders empty and unmarked.
    pub fn to_lower_camel_case(&self, reserved: &[&str]) -> (r: String)
        ensures
            self@.tokens.len() == 0 ==> r@ == Seq::<char>::empty(),
            self@.tokens.len() > 0 ==> r@ == with_reserved_mark(
                lower_of(self@.tokens[0]) + joined(
                    capitalized_all(self@.tokens.drop_first()),
                    Seq::empty(),
                ),
                reserved.deep_view(),
            ),
    {
        if self.tokens.len() == 0 {
            return String::new();
        }
        let head = lowercase(self.tokens[0].as_str());
        let mut rest: Vec<String> = Vec::new();
        let mut i: usize = 1;
        while i < self.tokens.len()
            invariant
                1 <= i <= self.tokens.len(),
                self.tokens.len() >= 1,
                rest.deep_view() == self@.tokens.subrange(1, i as int),
            decreases self.tokens.len() - i,
        {
            let ghost pre = rest.deep_view();
            let ghost prev = rest@;
            rest.push(self.tokens[i].clone());
            proof {
                assert(rest.deep_view().len() == pre.len() + 1);
                assert forall|j: int| 0 <= j < pre.len() implies rest.deep_view()[j] == pre[j] by {
                    assert(rest@[j] == prev[j]);
                    assert(pre[j] == prev[j].deep_view());
                }
                assert(rest.deep_view()[(i - 1) as int] == self@.tokens[i as int]);
                assert(rest.deep_view() =~= self@.tokens.subrange(1, i as int + 1));
            }
            i = i + 1;
        }
        let capped = map_capitalize(&rest);
        let tail_text = join_with(&capped, "");
        let joined_text = head.concat(tail_text.as_str());
        proof {
            reveal_strlit("");
            assert(""@ =~= Seq::<char>::empty());
            assert(self@.tokens.subrange(1, self.tokens.len() as int) =~= self@.tokens.drop_first());
        }
        Name::check_reserved(joined_text, reserved)
    }

    /// The name rendered under its own case rule.
    pub fn to_string(&self) -> (r: String)
        ensures
            r@ == render_name(self@),
    {
        let none: &[&str] = &[];
        proof {
            assert(none.deep_view() =~= Seq::<Seq<char>>::empty());
        }
        match self.case {
            NameCase::Fixed => self.to_fixed_case(),
            NameCase::LowerCamelCase => self.to_lower_camel_case(none),
            NameCase::UpperCamelCase => self.to_upper_camel_case(none),
            NameCase::ScreamingSnakeCase => self.to_screaming_snake_case(none),
            NameCase::SnakeCase => self.to_snake_case(none),
        }
    }
}

impl Clone for Name {
    /// An equal name: same tokens, same case.
    fn clone(&self) -> (r: Self)
        ensures
            r@ == self@,
    {
        let tokens = self.tokens.clone();
        proof {
            assert forall|j: int| 0 <= j < self.tokens.len() implies tokens.deep_view()[j]
                == self@.tokens[j] by {
                assert(cloned::<String>(self.tokens[j], tokens[j]));
            }
            assert(tokens.deep_view() =~= self@.tokens);
        }
        Name { tokens, case: self.case }
    }
}

/// Token-and-case equality of two names.
pub(crate) fn name_eq(a: &Name, b: &Name) -> (r: bool)
    ensures
        r == (a@ == b@),
{
    if a.case != b.case {
        return false;
    }
    if a.tokens.len() != b.tokens.len() {
        proof {
            assert(a@.tokens.len() != b@.tokens.len());
        }
        return false;
    }
    let mut i: usize = 0;
    while i < a.tokens.len()
        invariant
            i <= a.tokens.len(),
            a.tokens.len() == b.tokens.len(),
            forall|j: int| 0 <= j < i ==> a@.tokens[j] == b@.tokens[j],
        decreases a.tokens.len() - i,
    {
        if !(a.tokens[i] == b.tokens[i]) {
            proof {
                assert(a@.tokens[i as int] != b@.tokens[i as int]);
            }
            return false;
        }
        i = i + 1;
    }
    proof {
        assert(a@.tokens =~= b@.tokens);
        assert(a@ =~= b@);
    }
    true
}

impl QualifiedName {
    /// The qualified name with no names in it.
    pub fn empty() -> (r: QualifiedName)
        ensures
            r@ == Seq::<NameModel>::empty(),
    {
        let r = QualifiedName { names: Vec::new() };
        proof {
            assert(r@ =~= Seq::<NameModel>::empty());
        }
        r
    }

    /// A new qualified name with `name` put in front; the receiver is kept.
    pub fn with_prepended(&self, name: &Name) -> (r: QualifiedName)
        ensures
            r@ == seq![name@] + self@,
    {
        let mut names: Vec<Name> = Vec::new();
        names.push(name.clone());
        proof {
            assert(names.deep_view() =~= seq![name@]);
        }
        let mut i: usize = 0;
        while i < self.names.len()
            invariant
                i <= self.names.len(),
                names.deep_view() == seq![name@] + self@.take(i as int),
            decreases self.names.len() - i,
        {
            let ghost pre = names.deep_view();
            let ghost prev = names@;
            names.push(self.names[i].clone());
            proof {
                assert(names.deep_view().len() == pre.len() + 1);
                assert forall|j: int| 0 <= j < pre.len() implies names.deep_view()[j] == pre[j] by {
                    assert(names@[j] == prev[j]);
                    assert(pre[j] == prev[j].deep_view());
                }
                assert(names.deep_view()[pre.len() as int] == self@[i as int]);
                let ghost target = seq![name@] + self@.take(i as int + 1);
                assert(target.len() == i + 2);
                assert forall|j: int| 0 <= j < i + 2 implies names.deep_view()[j] == target[j] by {
                    if j == 0 {
                        assert(pre[0] == (seq![name@] + self@.take(i as int))[0]);
                    } else if j < i + 1 {
                        assert(pre[j] == (seq![name@] + self@.take(i as int))[j]);
                        assert((seq![name@] + self@.take(i as int))[j] == self@[j - 1]);
                        assert(target[j] == self@.take(i as int + 1)[j - 1]);
                    } else {
                        assert(target[j] == self@.take(i as int + 1)[i as int]);
                    }
                }
                assert(names.deep_view() =~= seq![name@] + self@.take(i as int + 1));
            }
            i = i + 1;
        }
        proof {
            assert(self@.take(self.names.len() as int) =~= self@);
            assert(names.deep_view() =~= seq![name@] + self@);
        }
        QualifiedName { names }
    }

    /// A new qualified name with `name` appended; the receiver is kept.
    pub fn with_appended(&self, name: &Name) -> (r: QualifiedName)
        ensures
            r@ == self@.push(name@),
    {
        let mut names = self.names.clone();
        proof {
            assert forall|j: int| 0 <= j < self.names.len() implies names.deep_view()[j]
                == self@[j] by {
                assert(cloned::<Name>(self.names[j], names[j]));
            }
            assert(names.deep_view() =~= self@);
        }
        let ghost pre = names.deep_view();
        let ghost prev = names@;
        names.push(name.clone());
        proof {
            assert(names.deep_view().len() == pre.len() + 1);
            assert forall|j: int| 0 <= j < pre.len() implies names.deep_view()[j] == pre[j] by {
                assert(names@[j] == prev[j]);
                assert(pre[j] == prev[j].deep_view());
            }
            assert(names.deep_view()[pre.len() as int] == name@);
            assert(names.deep_view() =~= self@.push(name@));
        }
        QualifiedName { names }
    }

    /// The first name, absent when the qualified name is empty.
    pub fn head(&self) -> (r: Option<&Name>)
        ensures
            self@.len() == 0 ==> r is None,
            self@.len() > 0 ==> r is Some && r->0@ == self@[0],
    {
        if self.names.len() == 0 {
            return None;
        }
        Some(&self.names[0])
    }

    /// Everything after the first name.
    pub fn tail(&self) -> (r: QualifiedName)
        requires
            self@.len() > 0,
        ensures
            r@ == self@.drop_first(),
    {
        let mut names: Vec<Name> = Vec::new();
        let mut i: usize = 1;
        while i < self.names.len()
            invariant
                1 <= i <= self.names.len(),
                self.names.len() >= 1,
                names.deep_view() == self@.subrange(1, i as int),
            decreases self.names.len() - i,
        {
            let ghost pre = names.deep_view();
            let ghost prev = names@;
            names.push(self.names[i].clone());
            proof {
                assert(names.deep_view().len() == pre.len() + 1);
                assert forall|j: int| 0 <= j < pre.len() implies names.deep_view()[j] == pre[j] by {
                    assert(names@[j] == prev[j]);
                    assert(pre[j] == prev[j].deep_view());
                }
                assert(names.deep_view()[pre.len() as int] == self@[i as int]);
                assert(names.deep_view() =~= self@.subrange(1, i as int + 1));
            }
            i = i + 1;
        }
        proof {
            assert(self@.subrange(1, self.names.len() as int) =~= self@.drop_first());
        }
        QualifiedName { names }
    }

    /// Everything before the last name; empty stays empty.
    pub fn parent(&self) -> (r: QualifiedName)
        ensures
            self@.len() == 0 ==> r@ == Seq::<NameModel>::empty(),
            self@.len() > 0 ==> r@ == self@.drop_last(),
    {
        let mut names: Vec<Name> = Vec::new();
        if self.names.len() == 0 {
            proof {
                assert(names.deep_view() =~= Seq::<NameModel>::empty());
            }
            return QualifiedName { names };
        }
        let end = self.names.len() - 1;
        let mut i: usize = 0;
        while i < end
            invariant
                i <= end,
                end == self.names.len() - 1,
                self.names.len() >= 1,
                names.deep_view() == self@.take(i as int),
            decreases end - i,
        {
            let ghost pre = names.deep_view();
            let ghost prev = names@;
            names.push(self.names[i].clone());
            proof {
                assert(names.deep_view().len() == pre.len() + 1);
                assert forall|j: int| 0 <= j < pre.len() implies names.deep_view()[j] == pre[j] by {
                    assert(names@[j] == prev[j]);
                    assert(pre[j] == prev[j].deep_view());
                }
                assert(names.deep_view()[pre.len() as int] == self@[i as int]);
                assert(names.deep_view() =~= self@.take(i as int + 1));
            }
            i = i + 1;
        }
        proof {
            assert(self@.take(end as int) =~= self@.drop_last());
        }
        QualifiedName { names }
    }

    /// The last name, absent when the qualified name is empty.
    pub fn last(&self) -> (r: Option<&Name>)
        ensures
            self@.len() == 0 ==> r is None,
            self@.len() > 0 ==> r is Some && r->0@ == self@.last(),
    {
        if self.names.len() == 0 {
            return None;
        }
        Some(&self.names[self.names.len() - 1])
    }

    /// Whether `prefix` matches this qualified name, name by name, up to
    /// the prefix's length.
    pub fn is_prefixed_by(&self, prefix: &QualifiedName) -> (r: bool)
        ensures
            r == is_prefix_of(prefix@, self@),
    {
        if self.names.len() < prefix.names.len() {
            return false;
        }
        let mut idx: usize = 0;
        while idx < prefix.names.len()
            invariant
                idx <= prefix.names.len(),
                prefix.names.len() <= self.names.len(),
                forall|j: int| 0 <= j < idx ==> prefix@[j] == self@[j],
            decreases prefix.names.len() - idx,
        {
            if !name_eq(&self.names[idx], &prefix.names[idx]) {
                proof {
                    assert(prefix@[idx as int] != self@.take(prefix@.len() as int)[idx as int]);
                }
                return false;
            }
            idx = idx + 1;
        }
        proof {
            assert(prefix@ =~= self@.take(prefix@.len() as int));
        }
        true
    }

    /// The qualified name rendered as its names joined with `.`.
    pub fn to_string(&self) -> (r: String)
        ensures
            r@ == render_qualified(self@),
    {
        let mut parts: Vec<String> = Vec::new();
        let mut i: usize = 0;
        while i < self.names.len()
            invariant
                i <= self.names.len(),
                parts.deep_view() == rendered_all(self@.take(i as int)),
            decreases self.names.len() - i,
        {
            let ghost pre = parts.deep_view();
            let ghost prev = parts@;
            parts.push(self.names[i].to_string());
            proof {
                assert(parts.deep_view().len() == pre.len() + 1);
                assert forall|j: int| 0 <= j < pre.len() implies parts.deep_view()[j] == pre[j] by {
                    assert(parts@[j] == prev[j]);
                    assert(pre[j] == prev[j].deep_view());
                }
                assert(parts.deep_view()[pre.len() as int] == render_name(self@[i as int]));
                let ghost target = rendered_all(self@.take(i as int + 1));
                assert(target.len() == i + 1);
                assert forall|j: int| 0 <= j < i + 1 implies parts.deep_view()[j] == target[j] by {
                    assert(target[j] == render_name(self@.take(i as int + 1)[j]));
                    assert(self@.take(i as int + 1)[j] == self@[j]);
                    if j < i {
                        assert(parts.deep_view()[j] == pre[j]);
                        assert(pre[j] == rendered_all(self@.take(i as int))[j]);
                        assert(pre[j] == render_name(self@.take(i as int)[j]));
                    }
                }
                assert(parts.deep_view() =~= rendered_all(self@.take(i as int + 1)));
            }
            i = i + 1;
        }
        proof {
            assert(self@.take(self.names.len() as int) =~= self@);
        }
        let r = join_with(&parts, ".");
        proof {
            reveal_strlit(".");
            assert("."@ =~= seq!['.']);
        }
        r
    }
}

impl Clone for QualifiedName {
    /// An equal qualified name: the same names in the same order.
    fn clone(&self) -> (r: Self)
        ensures
            r@ == self@,
    {
        let names = self.names.clone();
        proof {
            assert forall|j: int| 0 <= j < self.names.len() implies names.deep_view()[j]
                == self@[j] by {
                assert(cloned::<Name>(self.names[j], names[j]));
            }
            assert(names.deep_view() =~= self@);
        }
        QualifiedName { names }
    }
}

/// Name-by-name equality of two qualified names.
pub(crate) fn qn_eq(a: &QualifiedName, b: &QualifiedName) -> (r: bool)
    ensures
        r == (a@ == b@),
{
    if a.names.len() != b.names.len() {
        proof {
            assert(a@.len() != b@.len());
        }
        return false;
    }
    let mut i: usize = 0;
    while i < a.names.len()
        invariant
            i <= a.names.len(),
            a.names.len() == b.names.len(),
            forall|j: int| 0 <= j < i ==> a@[j] == b@[j],
        decreases a.names.len() - i,
    {
        if !name_eq(&a.names[i], &b.names[i]) {
            proof {
                assert(a@[i as int] != b@[i as int]);
            }
            return false;
        }
        i = i + 1;
    }
    proof {
        assert(a@ =~= b@);
    }
    true
}

} // verus!
