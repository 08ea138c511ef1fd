//! What the language server answers about a document.
use crate::lines::is_alphanumeric;
use crate::lines::lines_of;
use crate::lines::split_lines;
use crate::text::chars_of;
use crate::text::same_text;
use crate::text::slice_of;
use vstd::prelude::*;

verus! {

/// A place in a document, counted from zero.
#[derive(Debug, Clone, Copy, PartialEq, Eq, Structural)]
pub struct Place {
    pub line: u32,
    pub character: u32,
}

/// A stretch of a document.
#[derive(Debug, Clone, Copy, PartialEq, Eq, Structural)]
pub struct Stretch {
    pub start: Place,
    pub end: Place,
}

/// What a declaration declares.
#[derive(Debug, Clone, Copy, PartialEq, Eq, Structural)]
pub enum Symbol {
    Function,
    Variable,
    Other,
}

#[derive(Debug)]
pub struct Declaration {
    pub name: String,
    pub kind: Symbol,
    pub range: Stretch,
}

/// The kind of a token for highlighting.
#[derive(Debug, Clone, Copy, PartialEq, Eq, Structural)]
pub enum Variant {
    Keyword,
    Function,
    Variable,
    Parameter,
    Operator,
    Comment,
    String,
    Number,
    Other,
}

/// A token for highlighting.
#[derive(Debug, Clone, Copy, PartialEq, Eq, Structural)]
pub struct LspToken {
    pub line: u32,
    pub column: u32,
    pub len: u32,
    pub variant: Variant,
}

pub open spec fn is_word_char(c: char) -> bool {
    is_alphanumeric(c) || c == '_'
}

fn word_char(c: char) -> (res: bool)
    ensures
        res == is_word_char(c),
{
    c.is_alphanumeric() || c == '_'
}

/// How far the word reaches to the left of an index.
pub open spec fn word_start(s: Seq<char>, i: int) -> int
    decreases i,
{
    if 0 < i <= s.len() && is_word_char(s[i - 1]) {
        word_start(s, i - 1)
    } else {
        i
    }
}

/// How far the word reaches to the right of an index.
pub open spec fn word_stop(s: Seq<char>, i: int) -> int
    decreases s.len() - i,
{
    if 0 <= i < s.len() && is_word_char(s[i]) {
        word_stop(s, i + 1)
    } else {
        i
    }
}

/// The word at a place, or right before it.
pub open spec fn word_at_spec(source: Seq<char>, line: int, col: int) -> Option<Seq<char>> {
    let lines = lines_of(source);
    if line >= lines.len() || col >= lines[line].len() {
        None
    } else {
        let s = lines[line];
        let a = word_start(s, col);
        let b = word_stop(s, col);
        if a == b {
            None
        } else {
            Some(s.subrange(a, b))
        }
    }
}

/// The word at a place, or right before it.
pub fn word_at(source: &str, pos: Place) -> (res: Option<String>)
    ensures
        match res {
            Some(w) => word_at_spec(source@, pos.line as int, pos.character as int) == Some(w@),
            None => word_at_spec(source@, pos.line as int, pos.character as int) is None,
        },
{
    let lines = split_lines(source);
    let k: usize = pos.line as usize;
    if k >= lines.len() {
        return None;
    }
    assert(lines_of(source@)[k as int] == lines@[k as int]@);
    let s = chars_of(lines[k].as_str());
    let col: usize = pos.character as usize;
    if col >= s.len() {
        return None;
    }
    let mut start: usize = col;
    while start > 0 && word_char(s[start - 1])
        invariant
            start <= col < s@.len(),
            word_start(s@, start as int) == word_start(s@, col as int),
        decreases start,
    {
        start = start - 1;
    }
    let mut end: usize = col;
    while end < s.len() && word_char(s[end])
        invariant
            col <= end <= s@.len(),
            word_stop(s@, end as int) == word_stop(s@, col as int),
        decreases s@.len() - end,
    {
        end = end + 1;
    }
    if start == end {
        return None;
    }
    Some(slice_of(&s, start, end))
}

/// The stretch holds the place. Its end belongs to it.
pub open spec fn covers(r: Stretch, p: Place) -> bool {
    &&& r.start.line <= p.line <= r.end.line
    &&& r.start.line < p.line || r.start.character <= p.character
    &&& r.end.line > p.line || r.end.character >= p.character
}

fn is_covered(r: Stretch, p: Place) -> (res: bool)
    ensures
        res == covers(r, p),
{
    r.start.line <= p.line && r.end.line >= p.line && (r.start.line < p.line || r.start.character
        <= p.character) && (r.end.line > p.line || r.end.character >= p.character)
}

/// The first declaration from an index on that holds the place.
pub open spec fn covering(ds: Seq<Declaration>, p: Place, k: int) -> Option<int>
    decreases ds.len() - k,
{
    if k < 0 || k >= ds.len() {
        None
    } else if covers(ds[k].range, p) {
        Some(k)
    } else {
        covering(ds, p, k + 1)
    }
}

/// The first declaration that holds the place.
pub fn declaration_at(ds: &Vec<Declaration>, p: Place) -> (res: Option<usize>)
    ensures
        match res {
            Some(k) => covering(ds@, p, 0) == Some(k as int) && k < ds@.len(),
            None => covering(ds@, p, 0) is None,
        },
{
    let mut k: usize = 0;
    while k < ds.len()
        invariant
            k <= ds@.len(),
            covering(ds@, p, 0) == covering(ds@, p, k as int),
        decreases ds@.len() - k,
    {
        if is_covered(ds[k].range, p) {
            return Some(k);
        }
        k = k + 1;
    }
    None
}

/// What is shown for a declaration.
pub open spec fn hover_spec(kind: Symbol, name: Seq<char>) -> Seq<char> {
    match kind {
        Symbol::Function => "(function) "@ + name,
        Symbol::Variable => "(variable) "@ + name,
        Symbol::Other => name,
    }
}

/// What is shown for a declaration.
pub fn hover_text(d: &Declaration) -> (res: String)
    ensures
        res@ == hover_spec(d.kind, d.name@),
{
    let mut s = String::new();
    match d.kind {
        Symbol::Function => s.append("(function) "),
        Symbol::Variable => s.append("(variable) "),
        Symbol::Other => {},
    }
    s.append(d.name.as_str());
    assert(s@ =~= hover_spec(d.kind, d.name@));
    s
}

/// A built-in function with its documentation.
#[derive(Debug)]
pub struct BuiltinDoc {
    pub name: String,
    pub doc: String,
}

/// The documentation of the first built-in function from an index on that has
/// the name.
pub open spec fn documented(docs: Seq<BuiltinDoc>, name: Seq<char>, k: int) -> Option<Seq<char>>
    decreases docs.len() - k,
{
    if k < 0 || k >= docs.len() {
        None
    } else if docs[k].name@ == name {
        Some(docs[k].doc@)
    } else {
        documented(docs, name, k + 1)
    }
}

/// The documentation of a built-in function.
pub fn get_docs(docs: &Vec<BuiltinDoc>, name: &str) -> (res: Option<String>)
    ensures
        match res {
            Some(s) => documented(docs@, name@, 0) == Some(s@),
            None => documented(docs@, name@, 0) is None,
        },
{
    let mut k: usize = 0;
    while k < docs.len()
        invariant
            k <= docs@.len(),
            documented(docs@, name@, 0) == documented(docs@, name@, k as int),
        decreases docs@.len() - k,
    {
        if same_text(docs[k].name.as_str(), name) {
            return Some(docs[k].doc.clone());
        }
        k = k + 1;
    }
    None
}

/// What is shown at a place: the documentation of the built-in function whose
/// name stands there, or else the declaration that holds the place, with its
/// stretch.
pub open spec fn shown_at(
    docs: Seq<BuiltinDoc>,
    ds: Seq<Declaration>,
    source: Seq<char>,
    p: Place,
) -> Option<(Seq<char>, Option<Stretch>)> {
    let doc = match word_at_spec(source, p.line as int, p.character as int) {
        Some(word) => documented(docs, word, 0),
        None => None,
    };
    match doc {
        Some(s) => Some((s, None)),
        None => match covering(ds, p, 0) {
            Some(k) => Some((hover_spec(ds[k].kind, ds[k].name@), Some(ds[k].range))),
            None => None,
        },
    }
}

/// What is shown at a place, and the stretch that it is about.
pub fn hover(docs: &Vec<BuiltinDoc>, ds: &Vec<Declaration>, source: &str, p: Place) -> (res: Option<
    (String, Option<Stretch>),
>)
    ensures
        match res {
            Some((s, r)) => shown_at(docs@, ds@, source@, p) == Some((s@, r)),
            None => shown_at(docs@, ds@, source@, p) is None,
        },
{
    if let Some(word) = word_at(source, p) {
        if let Some(doc) = get_docs(docs, word.as_str()) {
            return Some((doc, None));
        }
    }
    match declaration_at(ds, p) {
        Some(k) => Some((hover_text(&ds[k]), Some(ds[k].range))),
        None => None,
    }
}

/// The first declaration from an index on that has the name.
pub open spec fn declaring(ds: Seq<Declaration>, name: Seq<char>, k: int) -> Option<Stretch>
    decreases ds.len() - k,
{
    if k < 0 || k >= ds.len() {
        None
    } else if ds[k].name@ == name {
        Some(ds[k].range)
    } else {
        declaring(ds, name, k + 1)
    }
}

/// Where a name is declared first.
pub fn definition_of(ds: &Vec<Declaration>, name: &str) -> (res: Option<Stretch>)
    ensures
        res == declaring(ds@, name@, 0),
{
    let mut k: usize = 0;
    while k < ds.len()
        invariant
            k <= ds@.len(),
            declaring(ds@, name@, 0) == declaring(ds@, name@, k as int),
        decreases ds@.len() - k,
    {
        if same_text(ds[k].name.as_str(), name) {
            return Some(ds[k].range);
        }
        k = k + 1;
    }
    None
}

/// The number of a kind of token; tokens without a number are left out.
pub open spec fn type_index(v: Variant) -> Option<u32> {
    match v {
        Variant::Keyword => Some(0),
        Variant::Function => Some(1),
        Variant::Variable => Some(2),
        Variant::Parameter => Some(3),
        Variant::Operator => Some(4),
        Variant::Comment => Some(5),
        Variant::String => Some(6),
        Variant::Number => Some(7),
        Variant::Other => None,
    }
}

fn index_of_type(v: Variant) -> (res: Option<u32>)
    ensures
        res == type_index(v),
{
    match v {
        Variant::Keyword => Some(0),
        Variant::Function => Some(1),
        Variant::Variable => Some(2),
        Variant::Parameter => Some(3),
        Variant::Operator => Some(4),
        Variant::Comment => Some(5),
        Variant::String => Some(6),
        Variant::Number => Some(7),
        Variant::Other => None,
    }
}

/// A token relative to the one before it.
#[derive(Debug, Clone, Copy, PartialEq, Eq, Structural)]
pub struct TokenDelta {
    pub delta_line: u32,
    pub delta_start: u32,
    pub length: u32,
    pub token_type: u32,
}

/// One token does not stand before another.
pub open spec fn not_before(a: LspToken, b: LspToken) -> bool {
    a.line < b.line || (a.line == b.line && a.column <= b.column)
}

/// The tokens stand in the order of the document.
pub open spec fn in_order(ts: Seq<LspToken>) -> bool {
    forall|i: int, j: int| 0 <= i < j < ts.len() ==> not_before(ts[i], ts[j])
}

/// A token relative to a line and a column.
pub open spec fn delta_from(t: LspToken, line: u32, column: u32) -> TokenDelta {
    TokenDelta {
        delta_line: (t.line - line) as u32,
        delta_start: if t.line == line {
            (t.column - column) as u32
        } else {
            t.column
        },
        length: t.len,
        token_type: type_index(t.variant)->0,
    }
}

/// The first `n` tokens, and the line and column of the last of them that has a
/// number.
pub open spec fn deltas(ts: Seq<LspToken>, n: nat) -> (Seq<TokenDelta>, u32, u32)
    decreases n,
{
    if n == 0 {
        (Seq::empty(), 0, 0)
    } else {
        let (before, line, column) = deltas(ts, (n - 1) as nat);
        let t = ts[n - 1];
        if type_index(t.variant) is None {
            (before, line, column)
        } else {
            (before.push(delta_from(t, line, column)), t.line, t.column)
        }
    }
}

/// The tokens for highlighting, each relative to the one before it.
pub fn semantic_tokens(ts: &Vec<LspToken>) -> (res: Vec<TokenDelta>)
    requires
        in_order(ts@),
    ensures
        res@ == deltas(ts@, ts@.len()).0,
{
    let mut res: Vec<TokenDelta> = Vec::new();
    let mut prev_line: u32 = 0;
    let mut prev_char: u32 = 0;
    let ghost mut last: int = -1;
    let mut k: usize = 0;
    assert(res@ =~= deltas(ts@, 0).0);
    while k < ts.len()
        invariant
            k <= ts@.len(),
            in_order(ts@),
            deltas(ts@, k as nat) == (res@, prev_line, prev_char),
            -1 <= last < k,
            last == -1 ==> prev_line == 0 && prev_char == 0,
            last >= 0 ==> prev_line == ts@[last].line && prev_char == ts@[last].column,
        decreases ts@.len() - k,
    {
        let t = ts[k];
        if let Some(token_type) = index_of_type(t.variant) {
            proof {
                if last >= 0 {
                    assert(not_before(ts@[last], ts@[k as int]));
                }
            }
            let delta_line: u32 = t.line - prev_line;
            let delta_start: u32 = if delta_line == 0 {
                t.column - prev_char
            } else {
                t.column
            };
            res.push(TokenDelta { delta_line, delta_start, length: t.len, token_type });
            prev_line = t.line;
            prev_char = t.column;
            proof {
                last = k as int;
            }
        }
        k = k + 1;
    }
    res
}

/// Whether tokens stand in the order of the document.
pub fn is_in_order(ts: &Vec<LspToken>) -> (res: bool)
    ensures
        res == in_order(ts@),
{
    let mut k: usize = 1;
    while k < ts.len()
        invariant
            1 <= k,
            k <= ts@.len() || ts@.len() == 0,
            forall|i: int, j: int| 0 <= i < j < k && j < ts@.len() ==> not_before(ts@[i], ts@[j]),
        decreases ts@.len() - k,
    {
        let a = ts[k - 1];
        let b = ts[k];
        if !(a.line < b.line || (a.line == b.line && a.column <= b.column)) {
            assert(!not_before(ts@[k - 1], ts@[k as int]));
            return false;
        }
        proof {
            assert forall|i: int, j: int| 0 <= i < j < k + 1 && j < ts@.len() implies not_before(
                ts@[i],
                ts@[j],
            ) by {
                if j == k && i < k - 1 {
                    assert(not_before(ts@[i], ts@[k - 1]));
                }
            }
        }
        k = k + 1;
    }
    true
}

/// The line and the column that the first `n` relative places come to.
pub open spec fn resolved(ds: Seq<TokenDelta>, n: nat) -> (int, int)
    decreases n,
{
    if n == 0 {
        (0, 0)
    } else {
        let (line, column) = resolved(ds, (n - 1) as nat);
        let d = ds[n - 1];
        (
            line + d.delta_line,
            if d.delta_line == 0 {
                column + d.delta_start
            } else {
                d.delta_start as int
            },
        )
    }
}

proof fn lemma_resolved_prefix(a: Seq<TokenDelta>, d: TokenDelta, n: nat)
    requires
        n <= a.len(),
    ensures
        resolved(a.push(d), n) == resolved(a, n),
    decreases n,
{
    if n > 0 {
        lemma_resolved_prefix(a, d, (n - 1) as nat);
        assert(a.push(d)[n - 1] == a[n - 1]);
    }
}

proof fn lemma_resolves(ts: Seq<LspToken>, n: nat) -> (last: int)
    requires
        n <= ts.len(),
        in_order(ts),
    ensures
        resolved(deltas(ts, n).0, deltas(ts, n).0.len()) == (
            deltas(ts, n).1 as int,
            deltas(ts, n).2 as int,
        ),
        -1 <= last < n,
        last == -1 ==> deltas(ts, n).1 == 0 && deltas(ts, n).2 == 0,
        last >= 0 ==> deltas(ts, n).1 == ts[last].line && deltas(ts, n).2 == ts[last].column,
    decreases n,
{
    if n == 0 {
        -1
    } else {
        let last = lemma_resolves(ts, (n - 1) as nat);
        let (before, line, column) = deltas(ts, (n - 1) as nat);
        let t = ts[n - 1];
        if type_index(t.variant) is None {
            last
        } else {
            if last >= 0 {
                assert(not_before(ts[last], ts[n - 1]));
            }
            lemma_resolved_prefix(before, delta_from(t, line, column), before.len());
            n - 1
        }
    }
}

/// Adding the relative places up gives back where each highlighted token stands.
pub proof fn law_deltas_resolve(ts: Seq<LspToken>, n: nat)
    requires
        in_order(ts),
        0 < n <= ts.len(),
        type_index(ts[n - 1].variant) is Some,
    ensures
        resolved(deltas(ts, n).0, deltas(ts, n).0.len()) == (
            ts[n - 1].line as int,
            ts[n - 1].column as int,
        ),
{
    lemma_resolves(ts, n);
}

/// The word at a place reaches as far as word characters do on both sides: it is a
/// stretch of its line that holds the place or ends there, and neither of its
/// neighbours is a word character. There is none where no word character stands at
/// the place or right before it.
pub proof fn law_words_reach_as_far_as_they_can(source: Seq<char>, line: int, col: int) -> (place: (
    int,
    int,
))
    requires
        0 <= line < lines_of(source).len(),
        0 <= col < lines_of(source)[line].len(),
    ensures
        ({
            let s = lines_of(source)[line];
            let (a, b) = place;
            &&& 0 <= a <= col <= b <= s.len()
            &&& forall|k: int| a <= k < b ==> is_word_char(#[trigger] s[k])
            &&& a > 0 ==> !is_word_char(s[a - 1])
            &&& b < s.len() ==> !is_word_char(s[b])
            &&& a < b ==> word_at_spec(source, line, col) == Some(s.subrange(a, b))
            &&& a == b ==> word_at_spec(source, line, col) is None
            &&& (is_word_char(s[col]) || col > 0 && is_word_char(s[col - 1])) ==> a < b
        }),
{
    let s = lines_of(source)[line];
    lemma_word_start(s, col);
    lemma_word_stop(s, col);
    (word_start(s, col), word_stop(s, col))
}

proof fn lemma_word_start(s: Seq<char>, i: int)
    requires
        0 <= i <= s.len(),
    ensures
        0 <= word_start(s, i) <= i,
        forall|k: int| word_start(s, i) <= k < i ==> is_word_char(#[trigger] s[k]),
        word_start(s, i) > 0 ==> !is_word_char(s[word_start(s, i) - 1]),
    decreases i,
{
    if i > 0 && is_word_char(s[i - 1]) {
        lemma_word_start(s, i - 1);
    }
}

proof fn lemma_word_stop(s: Seq<char>, i: int)
    requires
        0 <= i <= s.len(),
    ensures
        i <= word_stop(s, i) <= s.len(),
        forall|k: int| i <= k < word_stop(s, i) ==> is_word_char(#[trigger] s[k]),
        word_stop(s, i) < s.len() ==> !is_word_char(s[word_stop(s, i)]),
    decreases s.len() - i,
{
    if i < s.len() && is_word_char(s[i]) {
        lemma_word_stop(s, i + 1);
    }
}

/// Outside the document there is no word.
pub proof fn law_there_are_no_words_outside(source: Seq<char>, line: int, col: int)
    requires
        line >= lines_of(source).len() || col >= lines_of(source)[line].len(),
    ensures
        word_at_spec(source, line, col) is None,
{
}

/// One place comes before another or is the same.
pub open spec fn up_to(a: Place, b: Place) -> bool {
    a.line < b.line || (a.line == b.line && a.character <= b.character)
}

/// A stretch holds the places from its start to its end, with both.
pub proof fn law_stretches_hold_what_lies_between(r: Stretch, p: Place)
    ensures
        covers(r, p) <==> up_to(r.start, p) && up_to(p, r.end),
{
}

/// Of the declarations that hold a place, the first is meant.
pub proof fn law_the_first_declaration_is_meant(ds: Seq<Declaration>, p: Place, k: int)
    requires
        0 <= k <= ds.len(),
    ensures
        match covering(ds, p, k) {
            Some(j) => k <= j < ds.len() && up_to(ds[j].range.start, p) && up_to(
                p,
                ds[j].range.end,
            ) && forall|i: int| k <= i < j ==> !covers((#[trigger] ds[i]).range, p),
            None => forall|i: int| k <= i < ds.len() ==> !covers((#[trigger] ds[i]).range, p),
        },
    decreases ds.len() - k,
{
    if k < ds.len() && !covers(ds[k].range, p) {
        law_the_first_declaration_is_meant(ds, p, k + 1);
    }
}

/// A name is defined where it is declared first, and nowhere if it is not declared.
pub proof fn law_names_are_defined_where_they_come_first(
    ds: Seq<Declaration>,
    name: Seq<char>,
    k: int,
) -> (j: int)
    requires
        0 <= k <= ds.len(),
    ensures
        k <= j <= ds.len(),
        forall|i: int| k <= i < j ==> (#[trigger] ds[i]).name@ != name,
        j < ds.len() ==> ds[j].name@ == name && declaring(ds, name, k) == Some(ds[j].range),
        j == ds.len() ==> declaring(ds, name, k) is None,
    decreases ds.len() - k,
{
    if k < ds.len() && ds[k].name@ != name {
        law_names_are_defined_where_they_come_first(ds, name, k + 1)
    } else {
        k
    }
}

/// The documentation of a name is that of the first built-in function that has it.
pub proof fn law_documentation_goes_by_the_name(
    docs: Seq<BuiltinDoc>,
    name: Seq<char>,
    k: int,
) -> (j: int)
    requires
        0 <= k <= docs.len(),
    ensures
        k <= j <= docs.len(),
        forall|i: int| k <= i < j ==> (#[trigger] docs[i]).name@ != name,
        j < docs.len() ==> docs[j].name@ == name && documented(docs, name, k) == Some(docs[j].doc@),
        j == docs.len() ==> documented(docs, name, k) is None,
    decreases docs.len() - k,
{
    if k < docs.len() && docs[k].name@ != name {
        law_documentation_goes_by_the_name(docs, name, k + 1)
    } else {
        k
    }
}

/// What is shown at a place is the documentation of the word there, where it has
/// some. Otherwise it is the declaration that holds the place, under its kind and
/// its name, and where nothing holds the place, nothing is shown.
pub proof fn law_documentation_is_shown_first(
    docs: Seq<BuiltinDoc>,
    ds: Seq<Declaration>,
    source: Seq<char>,
    p: Place,
    i: int,
    k: int,
)
    requires
        0 <= k < ds.len(),
        covers(ds[k].range, p),
        forall|j: int| 0 <= j < k ==> !covers((#[trigger] ds[j]).range, p),
    ensures
        0 <= i < docs.len() && word_at_spec(source, p.line as int, p.character as int) == Some(
            docs[i].name@,
        ) && (forall|j: int| 0 <= j < i ==> (#[trigger] docs[j]).name@ != docs[i].name@)
            ==> shown_at(docs, ds, source, p) == Some((docs[i].doc@, None::<Stretch>)),
        word_at_spec(source, p.line as int, p.character as int) is None ==> shown_at(
            docs,
            ds,
            source,
            p,
        ) == Some(
            (
                (match ds[k].kind {
                    Symbol::Function => "(function) "@,
                    Symbol::Variable => "(variable) "@,
                    Symbol::Other => Seq::empty(),
                }) + ds[k].name@,
                Some(ds[k].range),
            ),
        ),
{
    law_the_first_declaration_is_meant(ds, p, 0);
    assert(covering(ds, p, 0) == Some(k));
    assert(Seq::<char>::empty() + ds[k].name@ =~= ds[k].name@);
    if 0 <= i < docs.len() && word_at_spec(source, p.line as int, p.character as int) == Some(
        docs[i].name@,
    ) && (forall|j: int| 0 <= j < i ==> (#[trigger] docs[j]).name@ != docs[i].name@) {
        let j = law_documentation_goes_by_the_name(docs, docs[i].name@, 0);
    }
}

/// How many of the first `n` tokens are highlighted.
pub open spec fn highlighted(ts: Seq<LspToken>, n: nat) -> nat
    decreases n,
{
    if n == 0 {
        0
    } else if ts[n - 1].variant == Variant::Other {
        highlighted(ts, (n - 1) as nat)
    } else {
        highlighted(ts, (n - 1) as nat) + 1
    }
}

/// Each token of a kind that has a number is listed, with its length and that
/// number, behind those before it.
pub proof fn law_highlighted_tokens_are_listed(ts: Seq<LspToken>, n: nat, k: int)
    requires
        n <= ts.len(),
        0 <= k < n,
    ensures
        deltas(ts, n).0.len() == highlighted(ts, n),
        highlighted(ts, k as nat) <= highlighted(ts, n),
        ts[k].variant != Variant::Other ==> {
            let d = deltas(ts, n).0[highlighted(ts, k as nat) as int];
            &&& highlighted(ts, k as nat) < highlighted(ts, n)
            &&& d.length == ts[k].len
            &&& ts[k].variant == Variant::Keyword ==> d.token_type == 0
            &&& ts[k].variant == Variant::Function ==> d.token_type == 1
            &&& ts[k].variant == Variant::Variable ==> d.token_type == 2
            &&& ts[k].variant == Variant::Parameter ==> d.token_type == 3
            &&& ts[k].variant == Variant::Operator ==> d.token_type == 4
            &&& ts[k].variant == Variant::Comment ==> d.token_type == 5
            &&& ts[k].variant == Variant::String ==> d.token_type == 6
            &&& ts[k].variant == Variant::Number ==> d.token_type == 7
        },
    decreases n,
{
    lemma_deltas_count(ts, (n - 1) as nat);
    if k < n - 1 {
        law_highlighted_tokens_are_listed(ts, (n - 1) as nat, k);
    }
}

proof fn lemma_deltas_count(ts: Seq<LspToken>, n: nat)
    ensures
        deltas(ts, n).0.len() == highlighted(ts, n),
    decreases n,
{
    if n > 0 {
        lemma_deltas_count(ts, (n - 1) as nat);
    }
}

/// Tokens are in order exactly where each stands behind the one before it.
pub proof fn law_order_goes_by_line_and_column(ts: Seq<LspToken>, i: int, j: int)
    requires
        in_order(ts),
        0 <= i < j < ts.len(),
    ensures
        ts[i].line <= ts[j].line,
        ts[i].line == ts[j].line ==> ts[i].column <= ts[j].column,
{
    assert(not_before(ts[i], ts[j]));
}

} // verus!
