//! The streaming XML minifier: a tag allocator that maps each distinct
//! element name, in first-seen order, to one lowercase letter, and a token
//! rewriter that emits the renamed document while dropping the subtrees of a
//! fixed set of ignored tags.

use vstd::prelude::*;
use vstd::string::StrSliceExecFns;
use vstd::string::StringExecFns;

use quick_xml::events::Event;

use crate::text::normalize;
use crate::text::normalized;
use crate::text::push_char;
use crate::MinifyError;

verus! {

/// One parse event of the tokenizer, in document order.
pub enum Token {
    /// A start tag, carrying the element name.
    Start(String),
    /// An end tag, carrying the element name.
    End(String),
    /// A text node, carrying its raw content.
    Text(String),
}

/// The mathematical shape of a token: the same three cases over character
/// sequences.
pub enum TokenV {
    Start(Seq<char>),
    End(Seq<char>),
    Text(Seq<char>),
}

impl View for Token {
    type V = TokenV;

    open spec fn view(&self) -> TokenV {
        match self {
            Token::Start(n) => TokenV::Start(n@),
            Token::End(n) => TokenV::End(n@),
            Token::Text(t) => TokenV::Text(t@),
        }
    }
}

/// The views of a token sequence.
pub open spec fn toks_view(ts: Seq<Token>) -> Seq<TokenV> {
    ts.map_values(|t: Token| t@)
}

/// The number of symbols the allocator can hand out: the 26 lowercase
/// letters.
pub const ALPHABET: u8 = 26;

/// The symbol for table position `i`: the `i`-th lowercase letter.
pub open spec fn symbol(i: int) -> char {
    (((97 + i) as u8) as char)
}

/// Executable symbol lookup.
fn symbol_char(idx: u8) -> (c: char)
    requires
        idx < ALPHABET,
    ensures
        c == symbol(idx as int),
{
    (97 + idx) as char
}

/// The position of `n` in `t`, or `-1` if it is absent.
pub open spec fn find(t: Seq<Seq<char>>, n: Seq<char>) -> int
    decreases t.len(),
{
    if t.len() == 0 {
        -1
    } else if t[0] == n {
        0
    } else {
        let r = find(t.drop_first(), n);
        if r < 0 {
            -1
        } else {
            r + 1
        }
    }
}

/// `find` agrees with membership.
pub proof fn lemma_find_contains(t: Seq<Seq<char>>, n: Seq<char>)
    ensures
        t.contains(n) <==> 0 <= find(t, n) < t.len(),
        find(t, n) < t.len(),
        0 <= find(t, n) ==> t[find(t, n)] == n,
    decreases t.len(),
{
    if t.len() > 0 {
        assert(t.drop_first() =~= t.skip(1));
        lemma_find_contains(t.skip(1), n);
        if t[0] == n {
            assert(t.contains(n));
        } else {
            if t.contains(n) {
                let i = choose|i: int| 0 <= i < t.len() && t[i] == n;
                assert(t.skip(1)[i - 1] == n);
                assert(t.skip(1).contains(n));
            }
            if 0 <= find(t.skip(1), n) {
                assert(t[find(t, n)] == t.skip(1)[find(t.skip(1), n)]);
            }
        }
    }
}

/// What one allocator step does to the table: an old name leaves the table
/// unchanged and yields its position, a fresh name is appended and yields the
/// old size, and a fresh name beyond the alphabet fails.
pub open spec fn resolve_spec(t: Seq<Seq<char>>, n: Seq<char>) -> Option<(Seq<Seq<char>>, int)> {
    if find(t, n) >= 0 {
        Some((t, find(t, n)))
    } else if t.len() < ALPHABET as int {
        Some((t.push(n), t.len() as int))
    } else {
        None
    }
}

/// A well-formed symbol table: at most one symbol per name and at most as
/// many names as the alphabet has symbols.
pub open spec fn table_wf(t: Seq<Seq<char>>) -> bool {
    &&& t.len() <= ALPHABET as int
    &&& forall|i: int, j: int| 0 <= i < j < t.len() ==> t[i] != t[j]
}

/// The streaming minifier: the fixed set of ignored tag names and the symbol
/// table grown so far, in first-occurrence order (the table position is the
/// symbol).
pub struct XmlMinifier {
    /// Tags whose whole subtree is dropped from the output.
    pub ignore_tags: Vec<String>,
    /// The names seen so far; the name at position `i` is renamed to
    /// `symbol(i)`.
    pub minified_tags: Vec<String>,
}

impl XmlMinifier {
    /// The table as a sequence of character sequences.
    pub open spec fn table(&self) -> Seq<Seq<char>> {
        self.minified_tags@.map_values(|s: String| s@)
    }

    /// The ignore set as a sequence of character sequences.
    pub open spec fn ignore(&self) -> Seq<Seq<char>> {
        self.ignore_tags@.map_values(|s: String| s@)
    }

    /// The minifier's invariant: its table is well formed.
    pub open spec fn wf(&self) -> bool {
        table_wf(self.table())
    }

    /// A fresh minifier: an empty table and the fixed ignore set.
    pub fn new() -> (r: Self)
        ensures
            r.wf(),
            r.table() =~= Seq::<Seq<char>>::empty(),
            r.ignore() =~= ignored_tag_names(),
    {
        let mut ignore_tags: Vec<String> = Vec::new();
        ignore_tags.push(String::from_str("baseAddress"));
        ignore_tags.push(String::from_str("addressBlock"));
        ignore_tags.push(String::from_str("addressOffset"));
        ignore_tags.push(String::from_str("offset"));
        ignore_tags.push(String::from_str("size"));
        ignore_tags.push(String::from_str("usage"));
        ignore_tags.push(String::from_str("access"));
        ignore_tags.push(String::from_str("resetValue"));
        ignore_tags.push(String::from_str("bitOffset"));
        ignore_tags.push(String::from_str("bitWidth"));
        let r = XmlMinifier { ignore_tags, minified_tags: Vec::new() };
        proof {
            assert(r.ignore() =~= ignored_tag_names());
        }
        r
    }

    /// Returns the symbol position for `tag`, assigning the next free one on
    /// first sight, or fails once the alphabet is exhausted.
    pub fn get_minified_tag_idx(&mut self, tag: &str) -> (r: Result<u8, MinifyError>)
        requires
            old(self).wf(),
        ensures
            final(self).wf(),
            final(self).ignore_tags == old(self).ignore_tags,
            match resolve_spec(old(self).table(), tag@) {
                Some((t2, i)) => r == Ok::<u8, MinifyError>(i as u8) && final(self).table() == t2,
                None => r == Err::<u8, MinifyError>(MinifyError::CapacityExceeded)
                    && final(self).table() == old(self).table(),
            },
    {
        let n: usize = self.minified_tags.len();
        let mut i: usize = 0;
        while i < n
            invariant
                i <= n,
                n == self.table().len(),
                self == old(self),
                old(self).wf(),
                forall|k: int| 0 <= k < i ==> self.table()[k] != tag@,
            decreases n - i,
        {
            if str_eq(self.minified_tags[i].as_str(), tag) {
                proof {
                    lemma_find_prefix_hit(self.table(), tag@, i as int);
                }
                return Ok(i as u8);
            }
            i = i + 1;
        }
        proof {
            lemma_find_miss(self.table(), tag@);
        }
        if n >= ALPHABET as usize {
            return Err(MinifyError::CapacityExceeded);
        }
        self.minified_tags.push(String::from_str(tag));
        proof {
            assert(self.table() =~= old(self).table().push(tag@));
        }
        Ok(n as u8)
    }

    /// Returns the one-letter symbol for `tag`, allocating it if needed.
    pub fn get_minified_tag(&mut self, tag: &str) -> (r: Result<char, MinifyError>)
        requires
            old(self).wf(),
        ensures
            final(self).wf(),
            final(self).ignore_tags == old(self).ignore_tags,
            match resolve_spec(old(self).table(), tag@) {
                Some((t2, i)) => r == Ok::<char, MinifyError>(symbol(i)) && final(self).table() == t2,
                None => r == Err::<char, MinifyError>(MinifyError::CapacityExceeded)
                    && final(self).table() == old(self).table(),
            },
    {
        proof {
            lemma_find_contains(old(self).table(), tag@);
        }
        match self.get_minified_tag_idx(tag) {
            Ok(idx) => Ok(symbol_char(idx)),
            Err(e) => Err(e),
        }
    }

    /// Serializes the symbol table: `symbol=name` pairs in first-occurrence
    /// order, separated by commas.
    pub fn tags(&self) -> (r: String)
        requires
            self.wf(),
        ensures
            r@ == spec_tags(self.table()),
    {
        let n: usize = self.minified_tags.len();
        let mut out = String::new();
        let mut i: usize = 0;
        while i < n
            invariant
                i <= n,
                n == self.minified_tags@.len(),
                self.wf(),
                out@ == spec_tags(self.table().take(i as int)),
            decreases n - i,
        {
            if i > 0 {
                push_char(&mut out, ',');
            }
            push_char(&mut out, symbol_char(i as u8));
            push_char(&mut out, '=');
            out.append(self.minified_tags[i].as_str());
            proof {
                assert(self.table().take(i + 1).drop_last() =~= self.table().take(i as int));
                assert(self.table().take(i + 1)[i as int] == self.table()[i as int]);
                assert(out@ =~= spec_tags(self.table().take(i + 1)));
            }
            i = i + 1;
        }
        proof {
            assert(self.table().take(n as int) =~= self.table());
        }
        out
    }

    /// Rewrites one document: every retained tag is replaced by its one
    /// letter symbol, retained text is normalized, and the subtrees of
    /// ignored tags are dropped, the symbol table growing on the way.
    pub fn minify(&mut self, xml: &str) -> (r: Result<String, MinifyError>)
        requires
            old(self).wf(),
        ensures
            final(self).wf(),
            final(self).ignore_tags == old(self).ignore_tags,
            xml_tokens(xml@) matches Tokenization::Toks(ts) ==> prefix_balanced(ts),
            match xml_tokens(xml@) {
                Tokenization::Toks(ts) => match rewrite(
                    old(self).table(),
                    old(self).ignore(),
                    ts,
                    0,
                ) {
                    Some((tf, o)) => r matches Ok(s) && s@ == o && final(self).table() == tf,
                    None => r == Err::<String, MinifyError>(MinifyError::CapacityExceeded),
                },
                Tokenization::Malformed => r == Err::<String, MinifyError>(
                    MinifyError::MalformedInput,
                ) && *final(self) == *old(self),
            },
    {
        let tokens = match tokenize(xml) {
            Ok(ts) => ts,
            Err(e) => {
                return Err(e);
            },
        };
        self.minify_tokens(&tokens)
    }

    /// Rewrites one token stream: the emitted characters of `rewrite` over
    /// the current table and ignore set, with the table growing on the way;
    /// fails once a fresh tag name exceeds the alphabet.
    pub fn minify_tokens(&mut self, tokens: &Vec<Token>) -> (r: Result<String, MinifyError>)
        requires
            old(self).wf(),
        ensures
            final(self).wf(),
            final(self).ignore_tags == old(self).ignore_tags,
            match rewrite(old(self).table(), old(self).ignore(), toks_view(tokens@), 0) {
                Some((tf, o)) => r matches Ok(s) && s@ == o && final(self).table() == tf,
                None => r == Err::<String, MinifyError>(MinifyError::CapacityExceeded),
            },
    {
        let ghost t0 = self.table();
        let ghost ig = self.ignore();
        let ghost ts = toks_view(tokens@);
        let ghost g = rewrite(t0, ig, ts, 0);
        let n: usize = tokens.len();
        let mut out = String::new();
        let mut depth: usize = 0;
        let mut i: usize = 0;
        proof {
            assert(ts.skip(0) =~= ts);
            match g {
                Some((tf, o)) => {
                    assert(Seq::<char>::empty() + o =~= o);
                },
                None => {},
            }
        }
        while i < n
            invariant
                i <= n,
                n == tokens@.len(),
                ts == toks_view(tokens@),
                ts.len() == tokens@.len(),
                depth <= i,
                self.wf(),
                self.ignore_tags == old(self).ignore_tags,
                ig == self.ignore(),
                ig == old(self).ignore(),
                t0 == old(self).table(),
                g == rewrite(t0, ig, ts, 0),
                glue(g, out@, rewrite(self.table(), ig, ts.skip(i as int), depth as nat)),
            decreases n - i,
        {
            let ghost pre_tbl = self.table();
            let ghost suffix = ts.skip(i as int);
            let ghost out0 = out@;
            proof {
                assert(suffix[0] == tokens@[i as int]@);
                assert(suffix.drop_first() =~= ts.skip(i + 1));
            }
            match &tokens[i] {
                Token::Start(name) => {
                    if depth > 0 {
                        depth = depth + 1;
                    } else if contains_tag(&self.ignore_tags, name.as_str()) {
                        depth = 1;
                    } else {
                        let c = match self.get_minified_tag(name.as_str()) {
                            Ok(c) => c,
                            Err(e) => {
                                return Err(e);
                            },
                        };
                        push_char(&mut out, '<');
                        push_char(&mut out, c);
                        push_char(&mut out, '>');
                        proof {
                            assert(out@ =~= out0 + seq!['<', c, '>']);
                            lemma_glue_shift(
                                g,
                                out0,
                                seq!['<', c, '>'],
                                rewrite(self.table(), ig, ts.skip(i + 1), 0),
                            );
                        }
                    }
                },
                Token::End(name) => {
                    if depth > 0 {
                        depth = depth - 1;
                    } else {
                        let c = match self.get_minified_tag(name.as_str()) {
                            Ok(c) => c,
                            Err(e) => {
                                return Err(e);
                            },
                        };
                        push_char(&mut out, '<');
                        push_char(&mut out, '/');
                        push_char(&mut out, c);
                        push_char(&mut out, '>');
                        proof {
                            assert(out@ =~= out0 + seq!['<', '/', c, '>']);
                            lemma_glue_shift(
                                g,
                                out0,
                                seq!['<', '/', c, '>'],
                                rewrite(self.table(), ig, ts.skip(i + 1), 0),
                            );
                        }
                    }
                },
                Token::Text(content) => {
                    if depth == 0 {
                        let piece = normalize(content.as_str());
                        out.append(piece.as_str());
                        proof {
                            lemma_glue_shift(
                                g,
                                out0,
                                normalized(content@),
                                rewrite(self.table(), ig, ts.skip(i + 1), 0),
                            );
                        }
                    }
                },
            }
            i = i + 1;
        }
        proof {
            assert(ts.skip(n as int) =~= Seq::<TokenV>::empty());
            match g {
                Some((tf, o)) => {
                    assert(out@ + Seq::<char>::empty() =~= out@);
                },
                None => {},
            }
        }
        Ok(out)
    }
}

/// Tests membership of `tag` in a list of names.
fn contains_tag(v: &Vec<String>, tag: &str) -> (r: bool)
    ensures
        r == v@.map_values(|s: String| s@).contains(tag@),
{
    let n: usize = v.len();
    let mut i: usize = 0;
    while i < n
        invariant
            i <= n,
            n == v@.len(),
            forall|k: int| 0 <= k < i ==> v@[k]@ != tag@,
        decreases n - i,
    {
        if str_eq(v[i].as_str(), tag) {
            proof {
                assert(v@.map_values(|s: String| s@)[i as int] == tag@);
            }
            return true;
        }
        i = i + 1;
    }
    proof {
        let m = v@.map_values(|s: String| s@);
        if m.contains(tag@) {
            let k = choose|k: int| 0 <= k < m.len() && m[k] == tag@;
            assert(v@[k]@ == tag@);
        }
    }
    false
}

/// One `symbol=name` pair of the serialized table.
pub open spec fn spec_entry(name: Seq<char>, i: int) -> Seq<char> {
    seq![symbol(i), '='] + name
}

/// The serialized symbol table: the pairs in table order, comma-separated.
pub open spec fn spec_tags(t: Seq<Seq<char>>) -> Seq<char>
    decreases t.len(),
{
    if t.len() == 0 {
        Seq::empty()
    } else if t.len() == 1 {
        spec_entry(t[0], 0)
    } else {
        spec_tags(t.drop_last()) + seq![','] + spec_entry(t[t.len() - 1], t.len() - 1)
    }
}

/// What minifying a document yields, as a function of the document text
/// alone: the serialized symbol table, a newline, and the rewritten
/// document, or the error. That the whole run is one spec function of the
/// text is the determinism of minification.
pub open spec fn minify_spec(s: Seq<char>) -> Result<Seq<char>, MinifyError> {
    match xml_tokens(s) {
        Tokenization::Toks(ts) => match rewrite(
            Seq::<Seq<char>>::empty(),
            ignored_tag_names(),
            ts,
            0,
        ) {
            Some((tf, o)) => Ok(spec_tags(tf) + seq!['\n'] + o),
            None => Err(MinifyError::CapacityExceeded),
        },
        Tokenization::Malformed => Err(MinifyError::MalformedInput),
    }
}

/// Minifies one document: the serialized symbol table, a newline, and the
/// rewritten document. Fails, with nothing emitted, on malformed input or
/// when the document has more distinct retained tag names than the alphabet
/// has symbols. The result is `minify_spec` of the text: two runs on one
/// document give byte-identical results.
pub fn minify(xml: &str) -> (r: Result<String, MinifyError>)
    ensures
        match minify_spec(xml@) {
            Ok(o) => r matches Ok(s) && s@ == o,
            Err(e) => r == Err::<String, MinifyError>(e),
        },
        xml_tokens(xml@) matches Tokenization::Toks(ts) ==> prefix_balanced(ts),
{
    let mut minifier = XmlMinifier::new();
    let minified = match minifier.minify(xml) {
        Ok(s) => s,
        Err(e) => {
            return Err(e);
        },
    };
    let mut result = minifier.tags();
    push_char(&mut result, '\n');
    result.append(minified.as_str());
    proof {
        match xml_tokens(xml@) {
            Tokenization::Toks(ts) => {
                match rewrite(Seq::<Seq<char>>::empty(), ignored_tag_names(), ts, 0) {
                    Some((tf, o)) => {
                        assert(result@ =~= spec_tags(tf) + seq!['\n'] + o);
                    },
                    None => {},
                }
            },
            Tokenization::Malformed => {},
        }
    }
    Ok(result)
}

/// What tokenizing a document yields: its parse events in document order, or
/// a parse failure.
pub enum Tokenization {
    Toks(Seq<TokenV>),
    Malformed,
}

/// The token stream of a document. The tokenizer is a black box whose result
/// depends on the document text alone, so the stream has a name but no
/// definition; the contract of `tokenize` ties the name to the tokenizer.
pub uninterp spec fn xml_tokens(s: Seq<char>) -> Tokenization;

/// Relies on quick_xml's `Reader` (`from_str` and `read_event`): it yields
/// the document's start tags, end tags and text content in document order,
/// and rejects malformed markup. The reader splits text at entity and
/// character references; a reference is carried through as text in its raw
/// `&name;` form. Empty-element tags, CDATA sections, comments, declarations,
/// processing instructions and doctype declarations are dropped. Under the
/// default configuration the reader rejects stray and mismatched end tags
/// (`check_end_names` on, `allow_unmatched_ends` off), so every accepted
/// stream is prefix-balanced: each end tag closes the innermost open element
/// (elements may remain open at end of input). The event stream depends on
/// the document text alone.
#[verifier::external_body]
fn tokenize(xml: &str) -> (r: Result<Vec<Token>, MinifyError>)
    ensures
        match r {
            Ok(ts) => xml_tokens(xml@) == Tokenization::Toks(toks_view(ts@)) && prefix_balanced(
                toks_view(ts@),
            ),
            Err(e) => xml_tokens(xml@) == Tokenization::Malformed && e
                == MinifyError::MalformedInput,
        },
{
    let mut reader = quick_xml::Reader::from_str(xml);
    let mut out = Vec::new();
    loop {
        match reader.read_event() {
            Ok(Event::Eof) => return Ok(out),
            Ok(Event::Start(e)) => out.push(Token::Start(e.name().into_inner().to_owned())),
            Ok(Event::End(e)) => out.push(Token::End(e.name().into_inner().to_owned())),
            Ok(Event::Text(t)) => out.push(Token::Text(t.into_inner().into_owned())),
            Ok(Event::GeneralRef(er)) => out.push(Token::Text(format!("&{};", er.into_inner()))),
            Ok(_) => {}
            Err(_) => return Err(MinifyError::MalformedInput),
        }
    }
}

/// Prepends an emitted piece to the output of the rest of a run; a failed
/// rest stays failed.
pub open spec fn step_piece(
    piece: Seq<char>,
    rest: Option<(Seq<Seq<char>>, Seq<char>)>,
) -> Option<(Seq<Seq<char>>, Seq<char>)> {
    match rest {
        Some((tf, o)) => Some((tf, piece + o)),
        None => None,
    }
}

/// The whole rewriting pass over a token stream, from table `t`, ignore set
/// `ig` and skip depth `depth`: the final table and the emitted characters,
/// or `None` once a fresh tag name exceeds the alphabet.
///
/// While `depth > 0` the stream is inside an ignored subtree: nothing is
/// emitted, no symbol is allocated, and only the nesting depth is tracked.
/// At depth zero a start tag of the ignore set opens such a subtree; any
/// other tag is resolved to its symbol and emitted as `<s>` or `</s>`, and
/// text is emitted in normalized form.
pub open spec fn rewrite(
    t: Seq<Seq<char>>,
    ig: Seq<Seq<char>>,
    toks: Seq<TokenV>,
    depth: nat,
) -> Option<(Seq<Seq<char>>, Seq<char>)>
    decreases toks.len(),
{
    if toks.len() == 0 {
        Some((t, Seq::empty()))
    } else {
        let rest = toks.drop_first();
        match toks[0] {
            TokenV::Start(n) => {
                if depth > 0 {
                    rewrite(t, ig, rest, depth + 1)
                } else if ig.contains(n) {
                    rewrite(t, ig, rest, 1)
                } else {
                    match resolve_spec(t, n) {
                        Some((t2, i)) => step_piece(
                            seq!['<', symbol(i), '>'],
                            rewrite(t2, ig, rest, 0),
                        ),
                        None => None,
                    }
                }
            },
            TokenV::End(n) => {
                if depth > 0 {
                    rewrite(t, ig, rest, (depth - 1) as nat)
                } else {
                    match resolve_spec(t, n) {
                        Some((t2, i)) => step_piece(
                            seq!['<', '/', symbol(i), '>'],
                            rewrite(t2, ig, rest, 0),
                        ),
                        None => None,
                    }
                }
            },
            TokenV::Text(x) => {
                if depth > 0 {
                    rewrite(t, ig, rest, depth)
                } else {
                    step_piece(normalized(x), rewrite(t, ig, rest, 0))
                }
            },
        }
    }
}

/// The run so far fits the whole run: the rest of the run, appended to what
/// is already emitted, gives the run's result.
pub open spec fn glue(
    g: Option<(Seq<Seq<char>>, Seq<char>)>,
    done: Seq<char>,
    rest: Option<(Seq<Seq<char>>, Seq<char>)>,
) -> bool {
    match rest {
        Some((tf, o)) => g == Some::<(Seq<Seq<char>>, Seq<char>)>((tf, done + o)),
        None => g is None,
    }
}

/// Moving an emitted piece from the rest of the run to the emitted prefix
/// keeps the glue.
proof fn lemma_glue_shift(
    g: Option<(Seq<Seq<char>>, Seq<char>)>,
    done: Seq<char>,
    piece: Seq<char>,
    rest: Option<(Seq<Seq<char>>, Seq<char>)>,
)
    requires
        glue(g, done, step_piece(piece, rest)),
    ensures
        glue(g, done + piece, rest),
{
    match rest {
        Some((tf, o)) => {
            assert(done + (piece + o) =~= (done + piece) + o);
        },
        None => {},
    }
}

/// The fixed ignore set, as character sequences.
pub open spec fn ignored_tag_names() -> Seq<Seq<char>> {
    seq![
        "baseAddress"@,
        "addressBlock"@,
        "addressOffset"@,
        "offset"@,
        "size"@,
        "usage"@,
        "access"@,
        "resetValue"@,
        "bitOffset"@,
        "bitWidth"@,
    ]
}

/// Character-for-character string equality.
fn str_eq(a: &str, b: &str) -> (r: bool)
    ensures
        r == (a@ == b@),
{
    let n: usize = a.unicode_len();
    let m: usize = b.unicode_len();
    if n != m {
        return false;
    }
    let mut i: usize = 0;
    while i < n
        invariant
            i <= n,
            n == a@.len(),
            n == b@.len(),
            forall|k: int| 0 <= k < i ==> a@[k] == b@[k],
        decreases n - i,
    {
        if a.get_char(i) != b.get_char(i) {
            return false;
        }
        i = i + 1;
    }
    proof {
        assert(a@ =~= b@);
    }
    true
}

/// Law: the exported symbol table is injective both ways: no two positions
/// hold the same name, and no two positions are given the same symbol.
pub proof fn lemma_table_injective(m: XmlMinifier)
    requires
        m.wf(),
    ensures
        forall|i: int, j: int| 0 <= i < j < m.table().len() ==> m.table()[i] != m.table()[j],
        forall|i: int, j: int| 0 <= i < j < m.table().len() ==> symbol(i) != symbol(j),
{
    assert forall|i: int, j: int| 0 <= i < j < m.table().len() implies symbol(i) != symbol(j) by {
        assert(symbol(i) as u32 == 97 + i);
        assert(symbol(j) as u32 == 97 + j);
    }
}

/// One allocator step keeps the table well formed: a fresh name was absent,
/// so appending it keeps the entries distinct.
proof fn lemma_resolve_wf(t: Seq<Seq<char>>, n: Seq<char>)
    requires
        table_wf(t),
    ensures
        resolve_spec(t, n) matches Some((t2, i)) ==> table_wf(t2) && 0 <= i < t2.len(),
{
    lemma_find_contains(t, n);
    if find(t, n) < 0 && t.len() < ALPHABET as int {
        assert forall|i: int, j: int|
            0 <= i < j < t.push(n).len() implies t.push(n)[i] != t.push(n)[j] by {
            if j == t.len() {
                assert(!t.contains(n));
            }
        }
    }
}

/// Law: a run never breaks the symbol table's invariant: from a well-formed
/// table, every table the rewrite can end with is well formed, injective in
/// both directions.
pub proof fn lemma_rewrite_preserves_wf(
    t: Seq<Seq<char>>,
    ig: Seq<Seq<char>>,
    toks: Seq<TokenV>,
    depth: nat,
)
    requires
        table_wf(t),
    ensures
        rewrite(t, ig, toks, depth) matches Some((tf, o)) ==> table_wf(tf),
    decreases toks.len(),
{
    if toks.len() > 0 {
        let rest = toks.drop_first();
        match toks[0] {
            TokenV::Start(n) => {
                if depth > 0 {
                    lemma_rewrite_preserves_wf(t, ig, rest, depth + 1);
                } else if ig.contains(n) {
                    lemma_rewrite_preserves_wf(t, ig, rest, 1);
                } else {
                    lemma_resolve_wf(t, n);
                    match resolve_spec(t, n) {
                        Some((t2, i)) => {
                            lemma_rewrite_preserves_wf(t2, ig, rest, 0);
                        },
                        None => {},
                    }
                }
            },
            TokenV::End(n) => {
                if depth > 0 {
                    lemma_rewrite_preserves_wf(t, ig, rest, (depth - 1) as nat);
                } else {
                    lemma_resolve_wf(t, n);
                    match resolve_spec(t, n) {
                        Some((t2, i)) => {
                            lemma_rewrite_preserves_wf(t2, ig, rest, 0);
                        },
                        None => {},
                    }
                }
            },
            TokenV::Text(x) => {
                lemma_rewrite_preserves_wf(t, ig, rest, depth);
            },
        }
    }
}

/// How many leading tokens a skip that starts at `depth` consumes: every
/// token moves the depth, and the skip ends where the depth reaches zero.
pub open spec fn skip_len(toks: Seq<TokenV>, depth: nat) -> int
    decreases toks.len(),
{
    if depth == 0 || toks.len() == 0 {
        0
    } else {
        match toks[0] {
            TokenV::Start(n) => 1 + skip_len(toks.drop_first(), depth + 1),
            TokenV::End(n) => 1 + skip_len(toks.drop_first(), (depth - 1) as nat),
            TokenV::Text(x) => 1 + skip_len(toks.drop_first(), depth),
        }
    }
}

/// Law: a skipped segment contributes nothing. A run inside an ignored
/// subtree equals the run that resumes, with the same table and no output
/// emitted, where the skip depth returns to zero.
pub proof fn lemma_skip_discards(
    t: Seq<Seq<char>>,
    ig: Seq<Seq<char>>,
    toks: Seq<TokenV>,
    depth: nat,
)
    requires
        depth > 0,
    ensures
        0 <= skip_len(toks, depth) <= toks.len(),
        rewrite(t, ig, toks, depth) == rewrite(t, ig, toks.skip(skip_len(toks, depth)), 0),
    decreases toks.len(),
{
    if toks.len() == 0 {
        assert(toks.skip(0) =~= toks);
    } else {
        let rest = toks.drop_first();
        assert(rest =~= toks.skip(1));
        match toks[0] {
            TokenV::Start(n) => {
                lemma_skip_discards(t, ig, rest, depth + 1);
                assert(toks.skip(1).skip(skip_len(rest, depth + 1)) =~= toks.skip(
                    1 + skip_len(rest, depth + 1),
                ));
            },
            TokenV::End(n) => {
                if depth == 1 {
                    assert(skip_len(toks, depth) == 1);
                } else {
                    lemma_skip_discards(t, ig, rest, (depth - 1) as nat);
                    assert(toks.skip(1).skip(skip_len(rest, (depth - 1) as nat)) =~= toks.skip(
                        1 + skip_len(rest, (depth - 1) as nat),
                    ));
                }
            },
            TokenV::Text(x) => {
                lemma_skip_discards(t, ig, rest, depth);
                assert(toks.skip(1).skip(skip_len(rest, depth)) =~= toks.skip(
                    1 + skip_len(rest, depth),
                ));
            },
        }
    }
}

/// Law: at depth zero, a start tag of the ignore set and its whole subtree
/// contribute neither symbols nor output: the run equals the run on what
/// follows the skipped segment.
pub proof fn lemma_ignored_subtree_discarded(
    t: Seq<Seq<char>>,
    ig: Seq<Seq<char>>,
    toks: Seq<TokenV>,
)
    requires
        toks.len() > 0,
        toks[0] matches TokenV::Start(n) && ig.contains(n),
    ensures
        rewrite(t, ig, toks, 0) == rewrite(
            t,
            ig,
            toks.drop_first().skip(skip_len(toks.drop_first(), 1)),
            0,
        ),
{
    lemma_skip_discards(t, ig, toks.drop_first(), 1);
}

/// Law (ignore-set exclusion, output half, at any position): wherever a
/// start tag of an ignored name is met at skip depth zero, the whole skipped
/// segment that follows — the subtree's elements and all its descendant
/// text — contributes no output and no table entry: the run equals the run
/// on the stream with that segment cut out.
pub proof fn lemma_ignored_subtree_anywhere(
    t: Seq<Seq<char>>,
    ig: Seq<Seq<char>>,
    toks: Seq<TokenV>,
    j: int,
)
    requires
        0 <= j < toks.len(),
        toks[j] matches TokenV::Start(n) && ig.contains(n),
        depth_after(ig, toks.take(j), 0) == 0,
    ensures
        rewrite(t, ig, toks, 0) == rewrite(
            t,
            ig,
            toks.take(j) + toks.skip(j + 1).skip(skip_len(toks.skip(j + 1), 1)),
            0,
        ),
{
    let pre = toks.take(j);
    let tail = toks.skip(j);
    let cut = toks.skip(j + 1).skip(skip_len(toks.skip(j + 1), 1));
    assert(pre + tail =~= toks);
    lemma_rewrite_append(t, ig, pre, tail, 0);
    lemma_rewrite_append(t, ig, pre, cut, 0);
    assert(tail[0] == toks[j]);
    assert(tail.drop_first() =~= toks.skip(j + 1));
    match rewrite(t, ig, pre, 0) {
        Some((tm, oa)) => {
            lemma_ignored_subtree_discarded(tm, ig, tail);
        },
        None => {},
    }
}

/// The skip depth after a stream is processed from the given depth: the same
/// tracking that `rewrite` does, without the table and the output.
pub open spec fn depth_after(ig: Seq<Seq<char>>, toks: Seq<TokenV>, depth: nat) -> nat
    decreases toks.len(),
{
    if toks.len() == 0 {
        depth
    } else {
        let rest = toks.drop_first();
        match toks[0] {
            TokenV::Start(n) => {
                if depth > 0 {
                    depth_after(ig, rest, depth + 1)
                } else if ig.contains(n) {
                    depth_after(ig, rest, 1)
                } else {
                    depth_after(ig, rest, 0)
                }
            },
            TokenV::End(n) => {
                if depth > 0 {
                    depth_after(ig, rest, (depth - 1) as nat)
                } else {
                    depth_after(ig, rest, 0)
                }
            },
            TokenV::Text(x) => depth_after(ig, rest, depth),
        }
    }
}

/// A run decomposes at any split of its stream: the run on `a + b` is the
/// run on `a` followed by the run on `b` from the table and skip depth the
/// first part left behind, with the outputs concatenated.
pub proof fn lemma_rewrite_append(
    t: Seq<Seq<char>>,
    ig: Seq<Seq<char>>,
    a: Seq<TokenV>,
    b: Seq<TokenV>,
    depth: nat,
)
    ensures
        rewrite(t, ig, a + b, depth) == (match rewrite(t, ig, a, depth) {
            Some((tm, oa)) => (match rewrite(tm, ig, b, depth_after(ig, a, depth)) {
                Some((tf, ob)) => Some((tf, oa + ob)),
                None => None::<(Seq<Seq<char>>, Seq<char>)>,
            }),
            None => None::<(Seq<Seq<char>>, Seq<char>)>,
        }),
    decreases a.len(),
{
    if a.len() == 0 {
        assert(a + b =~= b);
        match rewrite(t, ig, b, depth) {
            Some((tf, ob)) => {
                assert(Seq::<char>::empty() + ob =~= ob);
            },
            None => {},
        }
    } else {
        let adf = a.drop_first();
        assert((a + b)[0] == a[0]);
        assert((a + b).drop_first() =~= adf + b);
        match a[0] {
            TokenV::Start(n) => {
                if depth > 0 {
                    lemma_rewrite_append(t, ig, adf, b, depth + 1);
                } else if ig.contains(n) {
                    lemma_rewrite_append(t, ig, adf, b, 1);
                } else {
                    match resolve_spec(t, n) {
                        Some((t2, i)) => {
                            lemma_rewrite_append(t2, ig, adf, b, 0);
                            match rewrite(t2, ig, adf, 0) {
                                Some((tm, oa2)) => {
                                    match rewrite(tm, ig, b, depth_after(ig, adf, 0)) {
                                        Some((tf, ob)) => {
                                            assert(seq!['<', symbol(i), '>'] + (oa2 + ob) =~= (seq![
                                                '<',
                                                symbol(i),
                                                '>',
                                            ] + oa2) + ob);
                                        },
                                        None => {},
                                    }
                                },
                                None => {},
                            }
                        },
                        None => {},
                    }
                }
            },
            TokenV::End(n) => {
                if depth > 0 {
                    lemma_rewrite_append(t, ig, adf, b, (depth - 1) as nat);
                } else {
                    match resolve_spec(t, n) {
                        Some((t2, i)) => {
                            lemma_rewrite_append(t2, ig, adf, b, 0);
                            match rewrite(t2, ig, adf, 0) {
                                Some((tm, oa2)) => {
                                    match rewrite(tm, ig, b, depth_after(ig, adf, 0)) {
                                        Some((tf, ob)) => {
                                            assert(seq!['<', '/', symbol(i), '>'] + (oa2 + ob)
                                                =~= (seq!['<', '/', symbol(i), '>'] + oa2) + ob);
                                        },
                                        None => {},
                                    }
                                },
                                None => {},
                            }
                        },
                        None => {},
                    }
                }
            },
            TokenV::Text(x) => {
                if depth > 0 {
                    lemma_rewrite_append(t, ig, adf, b, depth);
                } else {
                    lemma_rewrite_append(t, ig, adf, b, 0);
                    match rewrite(t, ig, adf, 0) {
                        Some((tm, oa2)) => {
                            match rewrite(tm, ig, b, depth_after(ig, adf, 0)) {
                                Some((tf, ob)) => {
                                    assert(normalized(x) + (oa2 + ob) =~= (normalized(x) + oa2)
                                        + ob);
                                },
                                None => {},
                            }
                        },
                        None => {},
                    }
                }
            },
        }
    }
}

/// Every end tag of the stream closes the innermost open element, starting
/// from the given stack of open element names; elements may remain open when
/// the stream ends.
pub open spec fn wf_prefix(toks: Seq<TokenV>, stack: Seq<Seq<char>>) -> bool
    decreases toks.len(),
{
    if toks.len() == 0 {
        true
    } else {
        match toks[0] {
            TokenV::Start(n) => wf_prefix(toks.drop_first(), stack.push(n)),
            TokenV::End(n) => stack.len() > 0 && stack[stack.len() - 1] == n && wf_prefix(
                toks.drop_first(),
                stack.drop_last(),
            ),
            TokenV::Text(x) => wf_prefix(toks.drop_first(), stack),
        }
    }
}

/// A prefix-balanced stream: every end tag closes the innermost open
/// element. The tokenizer guarantees this of every stream it accepts.
pub open spec fn prefix_balanced(toks: Seq<TokenV>) -> bool {
    wf_prefix(toks, Seq::empty())
}

/// The retained start-tag names of a stream, in document order: the names
/// the rewriter resolves from start tags — those met outside any ignored
/// subtree whose own name is not ignored. The skip tracking mirrors
/// `rewrite`.
pub open spec fn retained_start_names(
    ig: Seq<Seq<char>>,
    toks: Seq<TokenV>,
    depth: nat,
) -> Seq<Seq<char>>
    decreases toks.len(),
{
    if toks.len() == 0 {
        Seq::empty()
    } else {
        let rest = toks.drop_first();
        match toks[0] {
            TokenV::Start(n) => {
                if depth > 0 {
                    retained_start_names(ig, rest, depth + 1)
                } else if ig.contains(n) {
                    retained_start_names(ig, rest, 1)
                } else {
                    seq![n] + retained_start_names(ig, rest, 0)
                }
            },
            TokenV::End(n) => {
                if depth > 0 {
                    retained_start_names(ig, rest, (depth - 1) as nat)
                } else {
                    retained_start_names(ig, rest, 0)
                }
            },
            TokenV::Text(x) => retained_start_names(ig, rest, depth),
        }
    }
}

/// `t` extended with the names of `ns` that are new, each at its first
/// occurrence.
pub open spec fn firsts_from(t: Seq<Seq<char>>, ns: Seq<Seq<char>>) -> Seq<Seq<char>>
    decreases ns.len(),
{
    if ns.len() == 0 {
        t
    } else if t.contains(ns[0]) {
        firsts_from(t, ns.drop_first())
    } else {
        firsts_from(t.push(ns[0]), ns.drop_first())
    }
}

/// The distinct names of `ns`, in order of first occurrence.
pub open spec fn firsts(ns: Seq<Seq<char>>) -> Seq<Seq<char>> {
    firsts_from(Seq::empty(), ns)
}

/// Through a prefix-balanced run, the table grows exactly by the fresh
/// retained start-tag names, in first-occurrence order: an end tag that
/// reaches the allocator always names an element that was opened at skip
/// depth zero, so its name is already in the table and nothing is allocated.
///
/// `stack` holds the open element names; the elements below the skip (all of
/// them, when `depth == 0`) were resolved when opened, so their names are in
/// the table.
proof fn lemma_table_order_from(
    t: Seq<Seq<char>>,
    ig: Seq<Seq<char>>,
    toks: Seq<TokenV>,
    depth: nat,
    stack: Seq<Seq<char>>,
)
    requires
        wf_prefix(toks, stack),
        depth <= stack.len(),
        forall|k: int| 0 <= k < stack.len() - depth ==> t.contains(#[trigger] stack[k]),
    ensures
        rewrite(t, ig, toks, depth) matches Some((tf, o)) ==> tf == firsts_from(
            t,
            retained_start_names(ig, toks, depth),
        ),
    decreases toks.len(),
{
    if toks.len() > 0 {
        let rest = toks.drop_first();
        match toks[0] {
            TokenV::Start(n) => {
                if depth > 0 {
                    lemma_table_order_from(t, ig, rest, depth + 1, stack.push(n));
                } else if ig.contains(n) {
                    lemma_table_order_from(t, ig, rest, 1, stack.push(n));
                } else {
                    lemma_find_contains(t, n);
                    match resolve_spec(t, n) {
                        Some((t2, i)) => {
                            assert forall|k: int| 0 <= k < stack.push(n).len() implies t2.contains(
                                #[trigger] stack.push(n)[k],
                            ) by {
                                if k < stack.len() {
                                    let w = choose|w: int| 0 <= w < t.len() && t[w] == stack[k];
                                    assert(t2[w] == stack[k]);
                                } else {
                                    if find(t, n) >= 0 {
                                        assert(t2[find(t, n)] == n);
                                    } else {
                                        assert(t2[t.len() as int] == n);
                                    }
                                }
                            }
                            lemma_table_order_from(t2, ig, rest, 0, stack.push(n));
                            assert(retained_start_names(ig, toks, 0).drop_first()
                                =~= retained_start_names(ig, rest, 0));
                        },
                        None => {},
                    }
                }
            },
            TokenV::End(n) => {
                if depth > 0 {
                    lemma_table_order_from(t, ig, rest, (depth - 1) as nat, stack.drop_last());
                } else {
                    assert(t.contains(stack[stack.len() - 1]));
                    lemma_find_contains(t, n);
                    assert(find(t, n) >= 0);
                    lemma_table_order_from(t, ig, rest, 0, stack.drop_last());
                }
            },
            TokenV::Text(x) => {
                lemma_table_order_from(t, ig, rest, depth, stack);
            },
        }
    }
}

/// Law (first-occurrence ordering): over any prefix-balanced stream, the
/// final symbol table is exactly the distinct retained start-tag names in
/// order of first occurrence — complete over the names the rewriter meets
/// and holding nothing else — so the symbol given to a tag name is the
/// ordinal of that name's first retained start tag in document order.
pub proof fn lemma_first_occurrence(ig: Seq<Seq<char>>, toks: Seq<TokenV>)
    requires
        prefix_balanced(toks),
    ensures
        rewrite(Seq::empty(), ig, toks, 0) matches Some((tf, o)) ==> tf == firsts(
            retained_start_names(ig, toks, 0),
        ),
{
    lemma_table_order_from(Seq::empty(), ig, toks, 0, Seq::empty());
}

/// No retained start-tag name is in the ignore set: the rewriter resolves a
/// start tag only after testing it against the set.
proof fn lemma_retained_not_ignored(ig: Seq<Seq<char>>, toks: Seq<TokenV>, depth: nat)
    ensures
        forall|k: int|
            0 <= k < retained_start_names(ig, toks, depth).len() ==> !ig.contains(
                #[trigger] retained_start_names(ig, toks, depth)[k],
            ),
    decreases toks.len(),
{
    if toks.len() > 0 {
        let rest = toks.drop_first();
        match toks[0] {
            TokenV::Start(n) => {
                if depth > 0 {
                    lemma_retained_not_ignored(ig, rest, depth + 1);
                    assert(retained_start_names(ig, toks, depth) == retained_start_names(
                        ig,
                        rest,
                        depth + 1,
                    ));
                } else if ig.contains(n) {
                    lemma_retained_not_ignored(ig, rest, 1);
                    assert(retained_start_names(ig, toks, depth) == retained_start_names(
                        ig,
                        rest,
                        1,
                    ));
                } else {
                    lemma_retained_not_ignored(ig, rest, 0);
                    assert(retained_start_names(ig, toks, depth) == seq![n]
                        + retained_start_names(ig, rest, 0));
                    assert forall|k: int|
                        0 <= k < retained_start_names(ig, toks, depth).len() implies !ig.contains(
                        #[trigger] retained_start_names(ig, toks, depth)[k],
                    ) by {
                        if k == 0 {
                            assert(retained_start_names(ig, toks, depth)[0] == n);
                        } else {
                            assert(retained_start_names(ig, toks, depth)[k]
                                == retained_start_names(ig, rest, 0)[k - 1]);
                        }
                    }
                }
            },
            TokenV::End(n) => {
                if depth > 0 {
                    lemma_retained_not_ignored(ig, rest, (depth - 1) as nat);
                    assert(retained_start_names(ig, toks, depth) == retained_start_names(
                        ig,
                        rest,
                        (depth - 1) as nat,
                    ));
                } else {
                    lemma_retained_not_ignored(ig, rest, 0);
                    assert(retained_start_names(ig, toks, depth) == retained_start_names(
                        ig,
                        rest,
                        0,
                    ));
                }
            },
            TokenV::Text(x) => {
                lemma_retained_not_ignored(ig, rest, depth);
                assert(retained_start_names(ig, toks, depth) == retained_start_names(
                    ig,
                    rest,
                    depth,
                ));
            },
        }
    }
}

/// First occurrences add nothing of their own: every entry of
/// `firsts_from(t, ns)` is an entry of `t` or a name of `ns`.
proof fn lemma_firsts_from_members(t: Seq<Seq<char>>, ns: Seq<Seq<char>>)
    ensures
        forall|k: int|
            0 <= k < firsts_from(t, ns).len() ==> t.contains(#[trigger] firsts_from(t, ns)[k])
                || ns.contains(firsts_from(t, ns)[k]),
    decreases ns.len(),
{
    if ns.len() > 0 {
        let rest = ns.drop_first();
        let t2 = if t.contains(ns[0]) {
            t
        } else {
            t.push(ns[0])
        };
        lemma_firsts_from_members(t2, rest);
        assert forall|k: int|
            0 <= k < firsts_from(t, ns).len() implies t.contains(
            #[trigger] firsts_from(t, ns)[k],
        ) || ns.contains(firsts_from(t, ns)[k]) by {
            let x = firsts_from(t, ns)[k];
            assert(firsts_from(t, ns) == firsts_from(t2, rest));
            if t2.contains(x) {
                let w = choose|w: int| 0 <= w < t2.len() && t2[w] == x;
                if w < t.len() {
                    assert(t[w] == x);
                } else {
                    assert(x == ns[0]);
                }
            } else {
                let w = choose|w: int| 0 <= w < rest.len() && rest[w] == x;
                assert(ns[w + 1] == x);
            }
        }
    }
}

/// Law (ignore-set exclusion, table half): over any prefix-balanced stream,
/// no name of the ignore set ever enters the symbol table: the table ends as
/// the first occurrences of the retained names, and no retained name is
/// ignored.
pub proof fn lemma_ignored_never_in_table(
    t: Seq<Seq<char>>,
    ig: Seq<Seq<char>>,
    toks: Seq<TokenV>,
)
    requires
        prefix_balanced(toks),
        forall|k: int| 0 <= k < t.len() ==> !ig.contains(#[trigger] t[k]),
    ensures
        rewrite(t, ig, toks, 0) matches Some((tf, o)) ==> forall|k: int|
            0 <= k < tf.len() ==> !ig.contains(#[trigger] tf[k]),
{
    lemma_table_order_from(t, ig, toks, 0, Seq::empty());
    lemma_retained_not_ignored(ig, toks, 0);
    let names = retained_start_names(ig, toks, 0);
    lemma_firsts_from_members(t, names);
    match rewrite(t, ig, toks, 0) {
        Some((tf, o)) => {
            assert forall|k: int| 0 <= k < tf.len() implies !ig.contains(#[trigger] tf[k]) by {
                if names.contains(tf[k]) {
                    let w = choose|w: int| 0 <= w < names.len() && names[w] == tf[k];
                }
            }
        },
        None => {},
    }
}

/// Law (capacity): a successful run met at most as many distinct retained
/// tag names as the alphabet has symbols; a twenty-seventh distinct retained
/// name forces the capacity failure.
pub proof fn lemma_capacity_bound(ig: Seq<Seq<char>>, toks: Seq<TokenV>)
    requires
        prefix_balanced(toks),
    ensures
        rewrite(Seq::empty(), ig, toks, 0) matches Some((tf, o)) ==> firsts(
            retained_start_names(ig, toks, 0),
        ).len() <= ALPHABET as int,
{
    lemma_first_occurrence(ig, toks);
    lemma_rewrite_preserves_wf(Seq::empty(), ig, toks, 0);
}

/// A hit at position `i`, with all earlier entries misses, pins `find`.
proof fn lemma_find_prefix_hit(t: Seq<Seq<char>>, n: Seq<char>, i: int)
    requires
        0 <= i < t.len(),
        t[i] == n,
        forall|k: int| 0 <= k < i ==> t[k] != n,
    ensures
        find(t, n) == i,
    decreases i,
{
    if i > 0 {
        assert(t.drop_first() =~= t.skip(1));
        lemma_find_prefix_hit(t.skip(1), n, i - 1);
    }
}

/// A table with no entry equal to `n` makes `find` miss.
proof fn lemma_find_miss(t: Seq<Seq<char>>, n: Seq<char>)
    requires
        forall|k: int| 0 <= k < t.len() ==> t[k] != n,
    ensures
        find(t, n) == -1,
    decreases t.len(),
{
    if t.len() > 0 {
        assert(t.drop_first() =~= t.skip(1));
        lemma_find_miss(t.skip(1), n);
    }
}

} // verus!
