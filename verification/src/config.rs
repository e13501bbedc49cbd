use vstd::prelude::*;
use vstd::string::StrSliceExecFns;
use vstd::string::StringExecFns;

verus! {

// ---------------------------------------------------------------------------
// The configuration store: an ordered mapping of section name to an ordered
// list of key/value pairs, all strings.  Parsing and rendering of the on-disk
// text form are pure functions; no filesystem access happens here.
// ---------------------------------------------------------------------------

pub struct ConfigEntry {
    pub key: String,
    pub value: String,
}

impl View for ConfigEntry {
    type V = (Seq<char>, Seq<char>);

    open spec fn view(&self) -> (Seq<char>, Seq<char>) {
        (self.key@, self.value@)
    }
}

pub struct ConfigSection {
    pub name: String,
    pub entries: Vec<ConfigEntry>,
}

impl View for ConfigSection {
    type V = (Seq<char>, Seq<(Seq<char>, Seq<char>)>);

    open spec fn view(&self) -> (Seq<char>, Seq<(Seq<char>, Seq<char>)>) {
        (self.name@, Seq::new(self.entries@.len(), |i: int| self.entries@[i]@))
    }
}

pub struct Config {
    pub sections: Vec<ConfigSection>,
}

impl View for Config {
    type V = Seq<(Seq<char>, Seq<(Seq<char>, Seq<char>)>)>;

    open spec fn view(&self) -> Seq<(Seq<char>, Seq<(Seq<char>, Seq<char>)>)> {
        Seq::new(self.sections@.len(), |i: int| self.sections@[i]@)
    }
}

// ---------------------------------------------------------------------------
// Rendering to text.
// ---------------------------------------------------------------------------

pub open spec fn render_entry(e: (Seq<char>, Seq<char>)) -> Seq<char> {
    e.0 + seq!['='] + e.1 + seq!['\n']
}

pub open spec fn render_entries(es: Seq<(Seq<char>, Seq<char>)>) -> Seq<char>
    decreases es.len(),
{
    if es.len() == 0 {
        Seq::empty()
    } else {
        render_entry(es[0]) + render_entries(es.drop_first())
    }
}

pub open spec fn render_section(s: (Seq<char>, Seq<(Seq<char>, Seq<char>)>)) -> Seq<char> {
    seq!['['] + s.0 + seq![']', '\n'] + render_entries(s.1)
}

pub open spec fn render_sections(ss: Seq<(Seq<char>, Seq<(Seq<char>, Seq<char>)>)>) -> Seq<char>
    decreases ss.len(),
{
    if ss.len() == 0 {
        Seq::empty()
    } else {
        render_section(ss[0]) + render_sections(ss.drop_first())
    }
}

// ---------------------------------------------------------------------------
// Parsing from text: split into newline-separated lines, then read each line
// as blank, a `;` or `#` comment, a `[section]` header, or a `key=value`
// entry.  Blank padding around a line, a section name, a key or a value is
// ignored; rendering writes the canonical, unpadded form.
// ---------------------------------------------------------------------------

/// Index of the first occurrence of `c` in `s`, or `s.len()` if absent.
pub open spec fn find_char(s: Seq<char>, c: char) -> int
    decreases s.len(),
{
    if s.len() == 0 {
        0
    } else if s[0] == c {
        0
    } else {
        1 + find_char(s.drop_first(), c)
    }
}

/// The lines of `s`: maximal `'\n'`-free pieces; a trailing newline does not
/// open one more empty line.
pub open spec fn split_lines(s: Seq<char>) -> Seq<Seq<char>>
    decreases s.len(),
{
    if s.len() == 0 {
        Seq::empty()
    } else {
        let i = find_char(s, '\n');
        if 0 <= i < s.len() {
            seq![s.take(i)] + split_lines(s.skip(i + 1))
        } else {
            seq![s]
        }
    }
}

/// The blank characters that may pad a line, a key or a value.
pub open spec fn is_blank_char(c: char) -> bool {
    c == ' ' || c == '\t' || c == '\r'
}

pub open spec fn trim_start(s: Seq<char>) -> Seq<char>
    decreases s.len(),
{
    if s.len() > 0 && is_blank_char(s[0]) {
        trim_start(s.drop_first())
    } else {
        s
    }
}

pub open spec fn trim_end(s: Seq<char>) -> Seq<char>
    decreases s.len(),
{
    if s.len() > 0 && is_blank_char(s.last()) {
        trim_end(s.drop_last())
    } else {
        s
    }
}

pub open spec fn trim_blanks(s: Seq<char>) -> Seq<char> {
    trim_end(trim_start(s))
}

/// No blank padding at either end.
pub open spec fn edge_clean(s: Seq<char>) -> bool {
    s.len() == 0 || (!is_blank_char(s[0]) && !is_blank_char(s.last()))
}

pub open spec fn line_is_blank(l: Seq<char>) -> bool {
    trim_blanks(l).len() == 0
}

pub open spec fn line_is_comment(l: Seq<char>) -> bool {
    let t = trim_blanks(l);
    t.len() > 0 && (t[0] == ';' || t[0] == '#')
}

pub open spec fn line_is_section(l: Seq<char>) -> bool {
    let t = trim_blanks(l);
    t.len() >= 2 && t[0] == '[' && t[t.len() - 1] == ']'
}

pub open spec fn section_name_of(l: Seq<char>) -> Seq<char> {
    let t = trim_blanks(l);
    trim_blanks(t.subrange(1, t.len() - 1))
}

pub open spec fn line_is_entry(l: Seq<char>) -> bool {
    let t = trim_blanks(l);
    t.len() > 0 && t[0] != '[' && t[0] != ';' && t[0] != '#' && find_char(t, '=') < t.len()
}

pub open spec fn entry_key_of(l: Seq<char>) -> Seq<char> {
    let t = trim_blanks(l);
    trim_blanks(t.take(find_char(t, '=')))
}

pub open spec fn entry_value_of(l: Seq<char>) -> Seq<char> {
    let t = trim_blanks(l);
    trim_blanks(t.skip(find_char(t, '=') + 1))
}

/// Fold the classified lines into a section list; blank and comment lines
/// are skipped; `None` on the first line that fits no shape, and on an
/// entry before any section header.
pub open spec fn parse_lines(
    lines: Seq<Seq<char>>,
    acc: Seq<(Seq<char>, Seq<(Seq<char>, Seq<char>)>)>,
) -> Option<Seq<(Seq<char>, Seq<(Seq<char>, Seq<char>)>)>>
    decreases lines.len(),
{
    if lines.len() == 0 {
        Some(acc)
    } else {
        let l = lines[0];
        if line_is_blank(l) {
            parse_lines(lines.drop_first(), acc)
        } else if line_is_comment(l) {
            parse_lines(lines.drop_first(), acc)
        } else if line_is_section(l) {
            parse_lines(lines.drop_first(), acc.push((section_name_of(l), Seq::empty())))
        } else if line_is_entry(l) {
            if acc.len() == 0 {
                None
            } else {
                let last = acc[acc.len() - 1];
                parse_lines(
                    lines.drop_first(),
                    acc.update(acc.len() - 1, (last.0, last.1.push((entry_key_of(l), entry_value_of(l))))),
                )
            }
        } else {
            None
        }
    }
}

pub open spec fn parse_config_spec(s: Seq<char>) -> Option<
    Seq<(Seq<char>, Seq<(Seq<char>, Seq<char>)>)>,
> {
    parse_lines(split_lines(s), Seq::empty())
}

// ---------------------------------------------------------------------------
// Well-formed configurations: the texts that rendering keeps unambiguous.
// ---------------------------------------------------------------------------

pub open spec fn has_no_char(s: Seq<char>, c: char) -> bool {
    forall|i: int| 0 <= i < s.len() ==> s[i] != c
}

pub open spec fn wf_name(s: Seq<char>) -> bool {
    &&& has_no_char(s, '\n')
    &&& edge_clean(s)
}

pub open spec fn wf_key(k: Seq<char>) -> bool {
    &&& has_no_char(k, '\n')
    &&& has_no_char(k, '=')
    &&& k.len() > 0
    &&& k[0] != '['
    &&& k[0] != ';'
    &&& k[0] != '#'
    &&& edge_clean(k)
}

pub open spec fn wf_value(v: Seq<char>) -> bool {
    &&& has_no_char(v, '\n')
    &&& edge_clean(v)
}

pub open spec fn wf_section(s: (Seq<char>, Seq<(Seq<char>, Seq<char>)>)) -> bool {
    &&& wf_name(s.0)
    &&& forall|i: int|
        0 <= i < s.1.len() ==> #[trigger] wf_key(s.1[i].0) && wf_value(s.1[i].1)
}

pub open spec fn wf_config(c: Seq<(Seq<char>, Seq<(Seq<char>, Seq<char>)>)>) -> bool {
    forall|i: int| 0 <= i < c.len() ==> #[trigger] wf_section(c[i])
}

// ---------------------------------------------------------------------------
// Facts about find_char and split_lines.
// ---------------------------------------------------------------------------

pub proof fn lemma_find_char_absent(s: Seq<char>, c: char)
    requires
        has_no_char(s, c),
    ensures
        find_char(s, c) == s.len(),
    decreases s.len(),
{
    if s.len() > 0 {
        assert(forall|i: int|
            0 <= i < s.drop_first().len() ==> #[trigger] s.drop_first()[i] != c) by {
            assert(forall|i: int|
                0 <= i < s.drop_first().len() ==> s.drop_first()[i] == s[i + 1]);
        };
        lemma_find_char_absent(s.drop_first(), c);
    }
}

pub proof fn lemma_find_char_concat(x: Seq<char>, y: Seq<char>, c: char)
    requires
        has_no_char(x, c),
        y.len() > 0,
        y[0] == c,
    ensures
        find_char(x + y, c) == x.len(),
    decreases x.len(),
{
    if x.len() == 0 {
        assert(x + y =~= y);
    } else {
        assert((x + y)[0] == x[0]);
        assert(x[0] != c);
        assert((x + y).drop_first() =~= x.drop_first() + y);
        assert(forall|i: int|
            0 <= i < x.drop_first().len() ==> #[trigger] x.drop_first()[i] != c) by {
            assert(forall|i: int|
                0 <= i < x.drop_first().len() ==> x.drop_first()[i] == x[i + 1]);
        };
        lemma_find_char_concat(x.drop_first(), y, c);
    }
}

/// Characterization used to tie an executable scan to `find_char`.
pub proof fn lemma_find_char_at(s: Seq<char>, c: char, j: int)
    requires
        0 <= j < s.len(),
        s[j] == c,
        forall|k: int| 0 <= k < j ==> s[k] != c,
    ensures
        find_char(s, c) == j,
{
    assert(s =~= s.take(j) + s.skip(j));
    assert(forall|k: int| 0 <= k < j ==> s.take(j)[k] == s[k]);
    assert(s.skip(j).len() > 0);
    assert(s.skip(j)[0] == s[j]);
    lemma_find_char_concat(s.take(j), s.skip(j), c);
}

/// A text with no blank padding is its own trim.
pub proof fn lemma_trim_id(s: Seq<char>)
    requires
        edge_clean(s),
    ensures
        trim_blanks(s) == s,
{
}

/// Characterization of `trim_start` by the count of leading blanks.
pub proof fn lemma_trim_start_at(s: Seq<char>, a: int)
    requires
        0 <= a <= s.len(),
        forall|i: int| 0 <= i < a ==> is_blank_char(s[i]),
        a == s.len() || !is_blank_char(s[a]),
    ensures
        trim_start(s) == s.skip(a),
    decreases a,
{
    if a == 0 {
        assert(s.skip(0) =~= s);
    } else {
        assert(is_blank_char(s[0]));
        let s1 = s.drop_first();
        assert(forall|i: int| 0 <= i < a - 1 ==> is_blank_char(#[trigger] s1[i])) by {
            assert(forall|i: int| 0 <= i < s1.len() ==> s1[i] == s[i + 1]);
        };
        assert(a - 1 == s1.len() || !is_blank_char(s1[a - 1]));
        lemma_trim_start_at(s1, a - 1);
        assert(s1.skip(a - 1) =~= s.skip(a));
    }
}

/// Characterization of `trim_end` by the count of trailing blanks.
pub proof fn lemma_trim_end_at(s: Seq<char>, b: int)
    requires
        0 <= b <= s.len(),
        forall|i: int| b <= i < s.len() ==> is_blank_char(s[i]),
        b == 0 || !is_blank_char(s[b - 1]),
    ensures
        trim_end(s) == s.take(b),
    decreases s.len(),
{
    if b == s.len() {
        assert(s.take(b) =~= s);
    } else {
        assert(is_blank_char(s.last()));
        let s1 = s.drop_last();
        assert(forall|i: int| b <= i < s1.len() ==> is_blank_char(#[trigger] s1[i])) by {
            assert(forall|i: int| 0 <= i < s1.len() ==> s1[i] == s[i]);
        };
        lemma_trim_end_at(s1, b);
        assert(s1.take(b) =~= s.take(b));
    }
}

/// A newline-free first line splits off whole.
pub proof fn lemma_split_lines_concat(x: Seq<char>, y: Seq<char>)
    requires
        has_no_char(x, '\n'),
    ensures
        split_lines(x + seq!['\n'] + y) == seq![x] + split_lines(y),
{
    let s = x + seq!['\n'] + y;
    assert(s.len() > 0);
    lemma_find_char_concat(x, seq!['\n'] + y, '\n');
    assert(x + (seq!['\n'] + y) =~= s);
    assert(find_char(s, '\n') == x.len());
    assert(find_char(s, '\n') < s.len());
    assert(s.take(x.len() as int) =~= x);
    assert(s.skip(x.len() as int + 1) =~= y);
}

pub proof fn lemma_split_lines_whole(x: Seq<char>)
    requires
        has_no_char(x, '\n'),
        x.len() > 0,
    ensures
        split_lines(x) == seq![x],
{
    lemma_find_char_absent(x, '\n');
}

// ---------------------------------------------------------------------------
// Rendering then parsing gives the configuration back.
// ---------------------------------------------------------------------------

/// Append `es` to the entry list of `acc`'s last section.
pub open spec fn with_last_extended(
    acc: Seq<(Seq<char>, Seq<(Seq<char>, Seq<char>)>)>,
    es: Seq<(Seq<char>, Seq<char>)>,
) -> Seq<(Seq<char>, Seq<(Seq<char>, Seq<char>)>)>
    recommends
        acc.len() > 0,
{
    acc.update(acc.len() - 1, (acc.last().0, acc.last().1 + es))
}

proof fn lemma_parse_render_entries(
    es: Seq<(Seq<char>, Seq<char>)>,
    rest: Seq<char>,
    acc: Seq<(Seq<char>, Seq<(Seq<char>, Seq<char>)>)>,
)
    requires
        acc.len() > 0,
        forall|i: int| 0 <= i < es.len() ==> #[trigger] wf_key(es[i].0) && wf_value(es[i].1),
    ensures
        parse_lines(split_lines(render_entries(es) + rest), acc) == parse_lines(
            split_lines(rest),
            with_last_extended(acc, es),
        ),
    decreases es.len(),
{
    if es.len() == 0 {
        assert(render_entries(es) + rest =~= rest);
        assert(with_last_extended(acc, es) =~= acc.update(
            acc.len() - 1,
            (acc.last().0, acc.last().1),
        ));
        assert(acc.last().1 + es =~= acc.last().1);
        assert(with_last_extended(acc, es) =~= acc);
    } else {
        let e = es[0];
        let k = e.0;
        let v = e.1;
        let line = k + seq!['='] + v;
        // one entry renders as its line, a newline, then the rest
        assert(render_entries(es) + rest =~= line + seq!['\n'] + (render_entries(
            es.drop_first(),
        ) + rest));
        assert(wf_key(es[0].0) && wf_value(es[0].1));
        assert(wf_key(k) && wf_value(v));
        assert(has_no_char(line, '\n')) by {
            assert(forall|i: int| 0 <= i < k.len() ==> line[i] == k[i]);
            assert(line[k.len() as int] == '=');
            assert(forall|i: int|
                k.len() < i < line.len() ==> line[i] == v[i - k.len() - 1]);
        }
        lemma_split_lines_concat(line, render_entries(es.drop_first()) + rest);
        let lines = split_lines(render_entries(es) + rest);
        assert(lines == seq![line] + split_lines(render_entries(es.drop_first()) + rest));
        assert(lines.len() > 0);
        assert(lines[0] == line);
        assert(lines.drop_first() =~= split_lines(render_entries(es.drop_first()) + rest));
        // the line carries no blank padding, so it is its own trim
        assert(edge_clean(line)) by {
            assert(line[0] == k[0]);
            if v.len() > 0 {
                assert(line.last() == v[v.len() - 1]);
            } else {
                assert(line.last() == '=');
            }
        }
        lemma_trim_id(line);
        // and it reads back as exactly this entry
        assert(line[0] != '[' && line[0] != ';' && line[0] != '#') by {
            assert(line[0] == k[0]);
        }
        assert(find_char(line, '=') == k.len()) by {
            lemma_find_char_concat(k, seq!['='] + v, '=');
            assert(k + (seq!['='] + v) =~= line);
        }
        assert(line_is_entry(line));
        assert(!line_is_blank(line));
        assert(!line_is_comment(line));
        assert(!line_is_section(line));
        lemma_trim_id(k);
        assert(entry_key_of(line) =~= k) by {
            assert(line.take(k.len() as int) =~= k);
        }
        lemma_trim_id(v);
        assert(entry_value_of(line) =~= v) by {
            assert(line.skip(k.len() as int + 1) =~= v);
        }
        let acc1 = acc.update(acc.len() - 1, (acc.last().0, acc.last().1.push(e)));
        assert(parse_lines(lines, acc) == parse_lines(lines.drop_first(), acc1));
        assert(forall|i: int|
            0 <= i < es.drop_first().len() ==> #[trigger] wf_key(es.drop_first()[i].0)
                && wf_value(es.drop_first()[i].1)) by {
            assert(forall|i: int|
                0 <= i < es.drop_first().len() ==> es.drop_first()[i] == es[i + 1]);
        }
        lemma_parse_render_entries(es.drop_first(), rest, acc1);
        assert(with_last_extended(acc1, es.drop_first()) =~= with_last_extended(acc, es)) by {
            assert(acc1.last().1 + es.drop_first() =~= acc.last().1 + es);
        }
    }
}

proof fn lemma_parse_render_sections(
    ss: Seq<(Seq<char>, Seq<(Seq<char>, Seq<char>)>)>,
    acc: Seq<(Seq<char>, Seq<(Seq<char>, Seq<char>)>)>,
)
    requires
        wf_config(ss),
    ensures
        parse_lines(split_lines(render_sections(ss)), acc) == Some(acc + ss),
    decreases ss.len(),
{
    if ss.len() == 0 {
        assert(render_sections(ss) =~= Seq::<char>::empty());
        assert(split_lines(render_sections(ss)) =~= Seq::<Seq<char>>::empty());
        assert(acc + ss =~= acc);
    } else {
        let s = ss[0];
        assert(wf_section(s));
        let header = seq!['['] + s.0 + seq![']'];
        assert(render_sections(ss) + Seq::<char>::empty() =~= render_sections(ss));
        assert(render_sections(ss) =~= header + seq!['\n'] + (render_entries(s.1)
            + render_sections(ss.drop_first())));
        assert(has_no_char(header, '\n')) by {
            assert(header[0] == '[');
            assert(forall|i: int|
                1 <= i < 1 + s.0.len() ==> header[i] == s.0[i - 1]);
            assert(header[header.len() - 1] == ']');
        }
        lemma_split_lines_concat(header, render_entries(s.1) + render_sections(ss.drop_first()));
        let lines = split_lines(render_sections(ss));
        assert(lines == seq![header] + split_lines(render_entries(s.1) + render_sections(
            ss.drop_first(),
        )));
        assert(lines.len() > 0);
        assert(lines[0] == header);
        assert(lines.drop_first() =~= split_lines(render_entries(s.1) + render_sections(
            ss.drop_first(),
        )));
        assert(header.len() >= 2);
        assert(header[0] == '[');
        assert(header[header.len() - 1] == ']');
        assert(edge_clean(header));
        lemma_trim_id(header);
        assert(line_is_section(header));
        assert(!line_is_blank(header));
        assert(!line_is_comment(header));
        lemma_trim_id(s.0);
        assert(section_name_of(header) =~= s.0) by {
            assert(header.subrange(1, header.len() - 1) =~= s.0);
        }
        let acc1 = acc.push((s.0, Seq::<(Seq<char>, Seq<char>)>::empty()));
        assert(parse_lines(lines, acc) == parse_lines(lines.drop_first(), acc1));
        assert(acc1.len() > 0);
        lemma_parse_render_entries(s.1, render_sections(ss.drop_first()), acc1);
        let acc2 = with_last_extended(acc1, s.1);
        assert(acc2 =~= acc.push(s)) by {
            assert(acc1.last() == (s.0, Seq::<(Seq<char>, Seq<char>)>::empty()));
            assert(Seq::<(Seq<char>, Seq<char>)>::empty() + s.1 =~= s.1);
            assert(s == (s.0, s.1));
        }
        assert(wf_config(ss.drop_first())) by {
            assert(forall|i: int|
                0 <= i < ss.drop_first().len() ==> ss.drop_first()[i] == ss[i + 1]);
        }
        lemma_parse_render_sections(ss.drop_first(), acc2);
        assert(acc.push(s) + ss.drop_first() =~= acc + ss);
    }
}

/// Law: rendering a well-formed configuration and parsing the text back
/// reproduces the same sections, keys and values, in the same order.
pub proof fn lemma_config_round_trip(c: Seq<(Seq<char>, Seq<(Seq<char>, Seq<char>)>)>)
    requires
        wf_config(c),
    ensures
        parse_config_spec(render_sections(c)) == Some(c),
{
    lemma_parse_render_sections(c, Seq::empty());
    assert(Seq::<(Seq<char>, Seq<(Seq<char>, Seq<char>)>)>::empty() + c =~= c);
}

// ---------------------------------------------------------------------------
// Concatenation laws for the renderers, used to run them by loop.
// ---------------------------------------------------------------------------

pub proof fn lemma_render_entries_app(a: Seq<(Seq<char>, Seq<char>)>, b: Seq<(Seq<char>, Seq<char>)>)
    ensures
        render_entries(a + b) == render_entries(a) + render_entries(b),
    decreases a.len(),
{
    if a.len() == 0 {
        assert(a + b =~= b);
        assert(render_entries(a) + render_entries(b) =~= render_entries(b));
    } else {
        assert((a + b)[0] == a[0]);
        assert((a + b).drop_first() =~= a.drop_first() + b);
        lemma_render_entries_app(a.drop_first(), b);
        assert(render_entry(a[0]) + (render_entries(a.drop_first()) + render_entries(b))
            =~= (render_entry(a[0]) + render_entries(a.drop_first())) + render_entries(b));
    }
}

pub proof fn lemma_render_sections_app(
    a: Seq<(Seq<char>, Seq<(Seq<char>, Seq<char>)>)>,
    b: Seq<(Seq<char>, Seq<(Seq<char>, Seq<char>)>)>,
)
    ensures
        render_sections(a + b) == render_sections(a) + render_sections(b),
    decreases a.len(),
{
    if a.len() == 0 {
        assert(a + b =~= b);
        assert(render_sections(a) + render_sections(b) =~= render_sections(b));
    } else {
        assert((a + b)[0] == a[0]);
        assert((a + b).drop_first() =~= a.drop_first() + b);
        lemma_render_sections_app(a.drop_first(), b);
        assert(render_section(a[0]) + (render_sections(a.drop_first()) + render_sections(b))
            =~= (render_section(a[0]) + render_sections(a.drop_first())) + render_sections(b));
    }
}

// ---------------------------------------------------------------------------
// Executable rendering.
// ---------------------------------------------------------------------------

pub fn serialize_config(c: &Config) -> (r: String)
    ensures
        r@ == render_sections(c@),
{
    let mut r = String::new();
    proof {
        assert(c@.take(0) =~= Seq::<(Seq<char>, Seq<(Seq<char>, Seq<char>)>)>::empty());
    }
    let mut i: usize = 0;
    while i < c.sections.len()
        invariant
            i <= c.sections@.len(),
            c@.len() == c.sections@.len(),
            r@ == render_sections(c@.take(i as int)),
        decreases c.sections@.len() - i as int,
    {
        let sec = &c.sections[i];
        r.append("[");
        r.append(sec.name.as_str());
        r.append("]\n");
        proof {
            reveal_strlit("[");
            reveal_strlit("]\n");
            assert("["@ =~= seq!['[']);
            assert("]\n"@ =~= seq![']', '\n']);
        }
        let ghost header_done = render_sections(c@.take(i as int)) + seq!['['] + sec@.0 + seq![
            ']',
            '\n',
        ];
        assert(r@ == header_done);
        proof {
            assert(sec@.1.take(0) =~= Seq::<(Seq<char>, Seq<char>)>::empty());
        }
        let mut j: usize = 0;
        while j < sec.entries.len()
            invariant
                j <= sec.entries@.len(),
                sec@.1.len() == sec.entries@.len(),
                r@ == header_done + render_entries(sec@.1.take(j as int)),
            decreases sec.entries@.len() - j as int,
        {
            r.append(sec.entries[j].key.as_str());
            r.append("=");
            r.append(sec.entries[j].value.as_str());
            r.append("\n");
            proof {
                reveal_strlit("=");
                reveal_strlit("\n");
                assert("="@ =~= seq!['=']);
                assert("\n"@ =~= seq!['\n']);
                let e = sec@.1[j as int];
                assert(e == sec.entries@[j as int]@);
                lemma_render_entries_app(sec@.1.take(j as int), seq![e]);
                assert(sec@.1.take(j as int + 1) =~= sec@.1.take(j as int) + seq![e]);
                assert(seq![e].drop_first() =~= Seq::<(Seq<char>, Seq<char>)>::empty());
                assert(seq![e][0] == e);
                assert(render_entries(seq![e]) == render_entry(e) + render_entries(
                    Seq::<(Seq<char>, Seq<char>)>::empty(),
                ));
                assert(render_entry(e) + Seq::<char>::empty() =~= render_entry(e));
                assert(r@ =~= header_done + render_entries(sec@.1.take(j as int + 1)));
            }
            j = j + 1;
        }
        proof {
            assert(sec@.1.take(sec.entries@.len() as int) =~= sec@.1);
            let s = c@[i as int];
            assert(s == sec@);
            lemma_render_sections_app(c@.take(i as int), seq![s]);
            assert(c@.take(i as int + 1) =~= c@.take(i as int) + seq![s]);
            assert(seq![s].drop_first() =~= Seq::<(Seq<char>, Seq<(Seq<char>, Seq<char>)>)>::empty());
            assert(seq![s][0] == s);
            assert(render_sections(seq![s]) == render_section(s) + render_sections(
                Seq::<(Seq<char>, Seq<(Seq<char>, Seq<char>)>)>::empty(),
            ));
            assert(render_section(s) + Seq::<char>::empty() =~= render_section(s));
            assert(r@ =~= render_sections(c@.take(i as int + 1)));
        }
        i = i + 1;
    }
    proof {
        assert(c@.take(c.sections@.len() as int) =~= c@);
    }
    r
}

// ---------------------------------------------------------------------------
// Executable parsing.
// ---------------------------------------------------------------------------

pub open spec fn lines_view(ls: Seq<String>) -> Seq<Seq<char>> {
    Seq::new(ls.len(), |i: int| ls[i]@)
}

fn blank_char(c: char) -> (r: bool)
    ensures
        r == is_blank_char(c),
{
    c == ' ' || c == '\t' || c == '\r'
}

/// The slice of `ls` with leading and trailing blanks removed.
fn trimmed<'a>(ls: &'a str) -> (t: &'a str)
    ensures
        t@ == trim_blanks(ls@),
{
    let n = ls.unicode_len();
    let mut a: usize = 0;
    while a < n && blank_char(ls.get_char(a))
        invariant
            a <= n,
            n == ls@.len(),
            forall|i: int| 0 <= i < a ==> is_blank_char(ls@[i]),
        decreases n - a as int,
    {
        a = a + 1;
    }
    let mut e: usize = n;
    while e > a && blank_char(ls.get_char(e - 1))
        invariant
            a <= e <= n,
            n == ls@.len(),
            forall|i: int| e <= i < n ==> is_blank_char(ls@[i]),
        decreases e as int,
    {
        e = e - 1;
    }
    proof {
        lemma_trim_start_at(ls@, a as int);
        let tail = ls@.skip(a as int);
        assert(forall|i: int|
            e - a <= i < tail.len() ==> is_blank_char(#[trigger] tail[i])) by {
            assert(forall|i: int| 0 <= i < tail.len() ==> tail[i] == ls@[i + a]);
        };
        assert(e - a == 0 || !is_blank_char(tail[e - a - 1]));
        lemma_trim_end_at(tail, e - a as int);
        assert(tail.take(e - a as int) =~= ls@.subrange(a as int, e as int));
    }
    ls.substring_char(a, e)
}

/// Position of the first `c` in `ls`, or its length if `c` is absent.
fn scan_for_char(ls: &str, c: char) -> (j: usize)
    ensures
        j as int == find_char(ls@, c),
        j as int <= ls@.len(),
{
    let n = ls.unicode_len();
    let mut j: usize = 0;
    while j < n
        invariant
            j <= n,
            n == ls@.len(),
            forall|k: int| 0 <= k < j ==> ls@[k] != c,
        decreases n - j as int,
    {
        if ls.get_char(j) == c {
            proof {
                lemma_find_char_at(ls@, c, j as int);
            }
            return j;
        }
        j = j + 1;
    }
    proof {
        lemma_find_char_absent(ls@, c);
    }
    n
}

fn split_into_lines(s: &str) -> (r: Vec<String>)
    ensures
        lines_view(r@) == split_lines(s@),
{
    let n = s.unicode_len();
    let mut lines: Vec<String> = Vec::new();
    let mut start: usize = 0;
    let mut i: usize = 0;
    proof {
        assert(lines_view(lines@) =~= Seq::<Seq<char>>::empty());
        assert(s@.skip(0) =~= s@);
        assert(lines_view(lines@) + split_lines(s@) =~= split_lines(s@));
    }
    while i < n
        invariant
            start <= i <= n,
            n == s@.len(),
            split_lines(s@) == lines_view(lines@) + split_lines(s@.skip(start as int)),
            forall|k: int| start <= k < i ==> s@[k] != '\n',
        decreases n - i as int,
    {
        let c = s.get_char(i);
        if c == '\n' {
            let line = s.substring_char(start, i);
            let ghost old_lines = lines@;
            lines.push(String::from_str(line));
            proof {
                let x = s@.subrange(start as int, i as int);
                assert(line@ == x);
                assert(has_no_char(x, '\n'));
                assert(s@.skip(start as int) =~= x + seq!['\n'] + s@.skip(i as int + 1));
                lemma_split_lines_concat(x, s@.skip(i as int + 1));
                assert(lines_view(lines@) =~= lines_view(old_lines).push(x));
                assert(lines_view(old_lines).push(x) + split_lines(s@.skip(i as int + 1))
                    =~= lines_view(old_lines) + (seq![x] + split_lines(s@.skip(i as int + 1))));
            }
            start = i + 1;
        }
        i = i + 1;
    }
    if start < n {
        let line = s.substring_char(start, n);
        let ghost old_lines = lines@;
        lines.push(String::from_str(line));
        proof {
            let x = s@.subrange(start as int, n as int);
            assert(line@ == x);
            assert(has_no_char(x, '\n'));
            assert(s@.skip(start as int) =~= x);
            lemma_split_lines_whole(x);
            assert(lines_view(lines@) =~= lines_view(old_lines).push(x));
            assert(lines_view(old_lines).push(x) =~= lines_view(old_lines) + seq![x]);
        }
    } else {
        proof {
            assert(s@.skip(start as int) =~= Seq::<char>::empty());
            assert(lines_view(lines@) + split_lines(s@.skip(start as int)) =~= lines_view(lines@));
        }
    }
    lines
}

pub open spec fn sections_view(ss: Seq<ConfigSection>) -> Seq<
    (Seq<char>, Seq<(Seq<char>, Seq<char>)>),
> {
    Seq::new(ss.len(), |i: int| ss[i]@)
}

/// Parse the text form of a configuration.  `None` exactly where the pure
/// parser rejects the text.
pub fn parse_config(s: &str) -> (r: Option<Config>)
    ensures
        r matches Some(c) ==> parse_config_spec(s@) == Some(c@),
        r is None ==> parse_config_spec(s@) is None,
{
    let lines = split_into_lines(s);
    let mut sections: Vec<ConfigSection> = Vec::new();
    let mut i: usize = 0;
    proof {
        assert(lines_view(lines@).skip(0) =~= lines_view(lines@));
        assert(sections_view(sections@) =~= Seq::<(Seq<char>, Seq<(Seq<char>, Seq<char>)>)>::empty());
    }
    while i < lines.len()
        invariant
            i <= lines@.len(),
            lines_view(lines@) == split_lines(s@),
            parse_lines(split_lines(s@), Seq::empty()) == parse_lines(
                lines_view(lines@).skip(i as int),
                sections_view(sections@),
            ),
        decreases lines@.len() - i as int,
    {
        let ghost l = lines_view(lines@)[i as int];
        let ghost acc = sections_view(sections@);
        proof {
            assert(lines_view(lines@).skip(i as int)[0] == l);
            assert(lines_view(lines@).skip(i as int).drop_first() =~= lines_view(lines@).skip(
                i as int + 1,
            ));
        }
        let raw = lines[i].as_str();
        assert(raw@ == l);
        let ls = trimmed(raw);
        let ghost t = trim_blanks(l);
        assert(ls@ == t);
        let n = ls.unicode_len();
        if n == 0 {
            proof {
                assert(line_is_blank(l));
            }
        } else if ls.get_char(0) == ';' || ls.get_char(0) == '#' {
            proof {
                assert(!line_is_blank(l));
                assert(line_is_comment(l));
            }
        } else if ls.get_char(0) == '[' {
            if n >= 2 && ls.get_char(n - 1) == ']' {
                let name_raw = ls.substring_char(1, n - 1);
                let name = trimmed(name_raw);
                sections.push(ConfigSection { name: String::from_str(name), entries: Vec::new() });
                proof {
                    assert(line_is_section(l));
                    assert(!line_is_blank(l));
                    assert(!line_is_comment(l));
                    assert(name_raw@ == t.subrange(1, t.len() - 1));
                    assert(section_name_of(l) =~= name@);
                    let fresh = sections@[sections@.len() - 1]@;
                    assert(fresh.0 == name@);
                    assert(fresh.1 =~= Seq::<(Seq<char>, Seq<char>)>::empty());
                    assert(sections_view(sections@) =~= acc.push(
                        (section_name_of(l), Seq::<(Seq<char>, Seq<char>)>::empty()),
                    ));
                }
            } else {
                proof {
                    assert(!line_is_blank(l));
                    assert(!line_is_comment(l));
                    assert(!line_is_section(l));
                    assert(!line_is_entry(l));
                }
                return None;
            }
        } else {
            let j = scan_for_char(ls, '=');
            if j == n {
                proof {
                    assert(!line_is_blank(l));
                    assert(!line_is_comment(l));
                    assert(!line_is_section(l));
                    assert(!line_is_entry(l));
                }
                return None;
            }
            let key_raw = ls.substring_char(0, j);
            let val_raw = ls.substring_char(j + 1, n);
            let key = trimmed(key_raw);
            let val = trimmed(val_raw);
            proof {
                assert(!line_is_blank(l));
                assert(!line_is_comment(l));
                assert(!line_is_section(l));
                assert(line_is_entry(l));
                assert(key_raw@ == t.take(find_char(t, '=')));
                assert(val_raw@ == t.skip(find_char(t, '=') + 1));
                assert(entry_key_of(l) =~= key@);
                assert(entry_value_of(l) =~= val@);
            }
            match sections.pop() {
                None => {
                    proof {
                        assert(acc.len() == 0);
                    }
                    return None;
                },
                Some(sec) => {
                    let mut sec = sec;
                    let ghost old_sec = sec@;
                    sec.entries.push(
                        ConfigEntry { key: String::from_str(key), value: String::from_str(val) },
                    );
                    proof {
                        assert(sec@.0 == old_sec.0);
                        assert(sec@.1 =~= old_sec.1.push((entry_key_of(l), entry_value_of(l))));
                    }
                    sections.push(sec);
                    proof {
                        assert(acc.len() > 0);
                        assert(old_sec == acc[acc.len() - 1]);
                        assert(sections_view(sections@) =~= acc.update(
                            acc.len() - 1,
                            (old_sec.0, old_sec.1.push((entry_key_of(l), entry_value_of(l)))),
                        ));
                    }
                },
            }
        }
        i = i + 1;
    }
    proof {
        assert(lines_view(lines@).skip(lines@.len() as int) =~= Seq::<Seq<char>>::empty());
    }
    Some(Config { sections })
}

// ---------------------------------------------------------------------------
// The bootstrap defaults record.
// ---------------------------------------------------------------------------

pub open spec fn default_config_view() -> Seq<(Seq<char>, Seq<(Seq<char>, Seq<char>)>)> {
    seq![
        (
            "core"@,
            seq![
                ("repositoryformatversion"@, "0"@),
                ("filemode"@, "false"@),
                ("bare"@, "false"@),
            ],
        ),
    ]
}

/// The fixed initial mapping written as the bootstrap configuration.
pub fn default_config_content() -> (c: Config)
    ensures
        c@ == default_config_view(),
{
    let mut entries: Vec<ConfigEntry> = Vec::new();
    entries.push(
        ConfigEntry {
            key: String::from_str("repositoryformatversion"),
            value: String::from_str("0"),
        },
    );
    entries.push(
        ConfigEntry { key: String::from_str("filemode"), value: String::from_str("false") },
    );
    entries.push(ConfigEntry { key: String::from_str("bare"), value: String::from_str("false") });
    let mut sections: Vec<ConfigSection> = Vec::new();
    sections.push(ConfigSection { name: String::from_str("core"), entries });
    let c = Config { sections };
    proof {
        assert(c@[0].1 =~= default_config_view()[0].1);
        assert(c@ =~= default_config_view());
    }
    c
}

/// The defaults record is well formed, so rendering it and parsing the text
/// back reproduces it exactly.
pub proof fn lemma_default_config_wf()
    ensures
        wf_config(default_config_view()),
        parse_config_spec(render_sections(default_config_view())) == Some(default_config_view()),
{
    reveal_strlit("core");
    reveal_strlit("repositoryformatversion");
    reveal_strlit("filemode");
    reveal_strlit("bare");
    reveal_strlit("0");
    reveal_strlit("false");
    let c = default_config_view();
    assert(wf_section(c[0])) by {
        assert(wf_key(c[0].1[0].0) && wf_value(c[0].1[0].1));
        assert(wf_key(c[0].1[1].0) && wf_value(c[0].1[1].1));
        assert(wf_key(c[0].1[2].0) && wf_value(c[0].1[2].1));
    }
    assert(wf_config(c)) by {
        assert(forall|i: int| 0 <= i < c.len() ==> #[trigger] wf_section(c[i])) by {
            assert(c.len() == 1);
            assert(wf_section(c[0]));
        };
    }
    lemma_config_round_trip(c);
}

} // verus!
