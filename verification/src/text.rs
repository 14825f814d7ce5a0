//! Character-level text helpers shared by the analysis queries.

use vstd::prelude::*;
use vstd::string::StringSliceAdditionalSpecFns;

verus! {

broadcast use vstd::string::group_string_axioms;

/// Lexicographic order on character sequences, comparing code points; this is
/// the order in which `String` keys are kept by a `BTreeMap`.
pub open spec fn chars_lt(a: Seq<char>, b: Seq<char>) -> bool
    decreases a.len(),
{
    if b.len() == 0 {
        false
    } else if a.len() == 0 {
        true
    } else if a[0] != b[0] {
        (a[0] as int) < (b[0] as int)
    } else {
        chars_lt(a.drop_first(), b.drop_first())
    }
}

pub proof fn lemma_chars_lt_irreflexive(a: Seq<char>)
    ensures
        !chars_lt(a, a),
    decreases a.len(),
{
    if a.len() > 0 {
        lemma_chars_lt_irreflexive(a.drop_first());
    }
}

pub proof fn lemma_chars_lt_asymmetric(a: Seq<char>, b: Seq<char>)
    ensures
        chars_lt(a, b) ==> !chars_lt(b, a),
    decreases a.len(),
{
    if a.len() > 0 && b.len() > 0 && a[0] == b[0] {
        lemma_chars_lt_asymmetric(a.drop_first(), b.drop_first());
    }
}

pub proof fn lemma_chars_lt_transitive(a: Seq<char>, b: Seq<char>, c: Seq<char>)
    requires
        chars_lt(a, b),
        chars_lt(b, c),
    ensures
        chars_lt(a, c),
    decreases a.len(),
{
    if a.len() > 0 && b.len() > 0 && c.len() > 0 && a[0] == b[0] && b[0] == c[0] {
        lemma_chars_lt_transitive(a.drop_first(), b.drop_first(), c.drop_first());
    }
}

pub proof fn lemma_chars_lt_total(a: Seq<char>, b: Seq<char>)
    ensures
        a != b ==> chars_lt(a, b) || chars_lt(b, a),
    decreases a.len(),
{
    if a.len() > 0 && b.len() > 0 && a[0] == b[0] {
        lemma_chars_lt_total(a.drop_first(), b.drop_first());
        if a.drop_first() == b.drop_first() {
            assert(a =~= seq![a[0]] + a.drop_first());
            assert(b =~= seq![b[0]] + b.drop_first());
        }
    } else if a.len() == 0 && b.len() == 0 {
        assert(a =~= b);
    } else if a.len() > 0 && b.len() > 0 {
        assert((a[0] as int) != (b[0] as int));
    }
}

/// The characters of `s`, in order.
pub fn chars_of(s: &str) -> (v: Vec<char>)
    ensures
        v@ == s@,
{
    let mut v: Vec<char> = Vec::new();
    for c in it: s.chars()
        invariant
            v@ == it.seq().take(it.index() as int),
            it.seq() == s@,
    {
        v.push(c);
    }
    v
}

proof fn lemma_chars_lt_from(a: Seq<char>, b: Seq<char>, i: int)
    requires
        0 <= i <= a.len(),
        i <= b.len(),
        a.take(i) == b.take(i),
    ensures
        chars_lt(a, b) == chars_lt(a.skip(i), b.skip(i)),
    decreases i,
{
    if i > 0 {
        assert(a[0] == a.take(i)[0]);
        assert(b[0] == b.take(i)[0]);
        assert(a.drop_first().take(i - 1) =~= a.take(i).drop_first());
        assert(b.drop_first().take(i - 1) =~= b.take(i).drop_first());
        lemma_chars_lt_from(a.drop_first(), b.drop_first(), i - 1);
        assert(a.drop_first().skip(i - 1) =~= a.skip(i));
        assert(b.drop_first().skip(i - 1) =~= b.skip(i));
    } else {
        assert(a.skip(0) =~= a);
        assert(b.skip(0) =~= b);
    }
}

/// Compares two character sequences in the order of `chars_lt`.
pub fn chars_less(a: &Vec<char>, b: &Vec<char>) -> (r: bool)
    ensures
        r == chars_lt(a@, b@),
{
    let mut i: usize = 0;
    while i < a.len() && i < b.len()
        invariant
            0 <= i <= a.len(),
            i <= b.len(),
            a@.take(i as int) == b@.take(i as int),
        decreases a.len() - i,
    {
        if a[i] != b[i] {
            proof {
                lemma_chars_lt_from(a@, b@, i as int);
            }
            return a[i] < b[i];
        }
        assert(a@.take(i + 1) =~= a@.take(i as int).push(a@[i as int]));
        assert(b@.take(i + 1) =~= b@.take(i as int).push(b@[i as int]));
        i += 1;
    }
    proof {
        lemma_chars_lt_from(a@, b@, i as int);
    }
    i < b.len()
}

/// Compares two strings in the order that `BTreeMap<String, _>` keeps them.
pub fn str_less(a: &str, b: &str) -> (r: bool)
    ensures
        r == chars_lt(a@, b@),
{
    let ca = chars_of(a);
    let cb = chars_of(b);
    chars_less(&ca, &cb)
}

} // verus!

verus! {

/// Whether `t` starts with `p`.
pub open spec fn has_prefix(t: Seq<char>, p: Seq<char>) -> bool {
    p.len() <= t.len() && t.subrange(0, p.len() as int) == p
}

/// Whether `t` ends with `p`.
pub open spec fn has_suffix(t: Seq<char>, p: Seq<char>) -> bool {
    p.len() <= t.len() && t.subrange(t.len() - p.len(), t.len() as int) == p
}

/// Whether `p` occurs in `t` as a contiguous run.
pub open spec fn has_infix(t: Seq<char>, p: Seq<char>) -> bool {
    exists|i: int| 0 <= i && i + p.len() <= t.len() && #[trigger] t.subrange(i, i + p.len()) == p
}

/// The text between a pair of enclosing double quotes, if `t` is so enclosed.
pub open spec fn double_quoted_content(t: Seq<char>) -> Option<Seq<char>> {
    if t.len() >= 2 && t[0] == '"' && t[t.len() - 1] == '"' {
        Some(t.subrange(1, t.len() - 1))
    } else {
        None
    }
}

/// `q` is the position of the opening quote of a raw string literal `r#.."`.
pub open spec fn raw_quote_at(t: Seq<char>, q: int) -> bool {
    &&& 1 <= q < t.len()
    &&& t[q] == '"'
    &&& forall|i: int| 1 <= i < q ==> t[i] == '#'
}

/// The contents of a raw string literal `r#.."..."#..` with `q - 1` hashes
/// whose opening quote stands at `q`, if it is closed by the same number of hashes.
pub open spec fn raw_literal_content(t: Seq<char>, q: int) -> Option<Seq<char>> {
    if q <= t.len() && t[t.len() - q] == '"' && (forall|i: int|
        t.len() - q < i < t.len() ==> t[i] == '#') && q + 1 <= t.len() - q {
        Some(t.subrange(q + 1, t.len() - q))
    } else {
        None
    }
}

/// The module name written by a static import's module expression: a
/// double-quoted, back-quoted or raw string literal.
pub open spec fn static_import_module_name(t: Seq<char>) -> Option<Seq<char>> {
    if t.len() < 2 {
        None
    } else if t[0] == '"' && t[t.len() - 1] == '"' {
        Some(t.subrange(1, t.len() - 1))
    } else if t[0] == '`' && t[t.len() - 1] == '`' {
        Some(t.subrange(1, t.len() - 1))
    } else if t[0] == 'r' && exists|q: int| raw_quote_at(t, q) {
        raw_literal_content(t, choose|q: int| raw_quote_at(t, q))
    } else {
        None
    }
}

/// Strips the double quotes around a string literal's source text.
pub fn unquote_string_literal(text: &str) -> (r: Option<&str>)
    ensures
        r is Some == double_quoted_content(text@) is Some,
        r matches Some(s) ==> s@ == double_quoted_content(text@)->0,
{
    let n = text.unicode_len();
    if n >= 2 && text.get_char(0) == '"' && text.get_char(n - 1) == '"' {
        Some(text.substring_char(1, n - 1))
    } else {
        None
    }
}

/// Strips the double quotes around a string index key such as `map["key"]`.
pub fn unquote_string_index_literal(text: &str) -> (r: Option<&str>)
    ensures
        r is Some == double_quoted_content(text@) is Some,
        r matches Some(s) ==> s@ == double_quoted_content(text@)->0,
{
    let n = text.unicode_len();
    if n >= 2 && text.get_char(0) == '"' && text.get_char(n - 1) == '"' {
        Some(text.substring_char(1, n - 1))
    } else {
        None
    }
}

/// Reads the module name of a static import from the source text of its
/// module expression.
pub fn parse_static_import_module_name(module_text: &str) -> (r: Option<String>)
    ensures
        r is Some == static_import_module_name(module_text@) is Some,
        r matches Some(s) ==> s@ == static_import_module_name(module_text@)->0,
{
    let t = chars_of(module_text);
    let n = t.len();
    if n < 2 {
        return None;
    }
    if (t[0] == '"' && t[n - 1] == '"') || (t[0] == '`' && t[n - 1] == '`') {
        return Some(module_text.substring_char(1, n - 1).to_owned());
    }
    if t[0] != 'r' {
        return None;
    }
    // Hashes run from index 1 up to the first quote.
    let mut q: usize = 1;
    while q < n && t[q] == '#'
        invariant
            1 <= q <= n,
            n == t@.len(),
            forall|i: int| 1 <= i < q ==> t@[i] == '#',
        decreases n - q,
    {
        q += 1;
    }
    if q >= n || t[q] != '"' {
        proof {
            assert forall|p: int| !raw_quote_at(t@, p) by {
                if raw_quote_at(t@, p) {
                    if p < q {
                        assert(t@[p] == '#');
                    } else if p > q {
                        assert(t@[q as int] == '#');
                    }
                }
            }
        }
        return None;
    }
    proof {
        assert(raw_quote_at(t@, q as int));
        let c = choose|p: int| raw_quote_at(t@, p);
        if c < q {
            assert(t@[c] == '#');
        } else if c > q {
            assert(t@[q as int] == '#');
        }
        assert(c == q);
    }
    // The literal must close with a quote followed by the same hashes.
    if t[n - q] != '"' {
        return None;
    }
    let mut j: usize = n - q + 1;
    #[verifier::loop_isolation(false)]
    while j < n
        invariant
            n - q + 1 <= j <= n,
            n == t@.len(),
            q <= n,
            forall|i: int| n - q < i < j ==> t@[i] == '#',
        decreases n - j,
    {
        if t[j] != '#' {
            return None;
        }
        j += 1;
    }
    if q + 1 > n - q {
        return None;
    }
    Some(module_text.substring_char(q + 1, n - q).to_owned())
}

/// The characters that make a module name look like a file path.
pub open spec fn looks_path_like_text(t: Seq<char>) -> bool {
    ||| t.contains('/')
    ||| t.contains('\\')
    ||| has_suffix(t, seq!['.', 'r', 'h', 'a', 'i'])
    ||| has_prefix(t, seq!['.', '/'])
    ||| has_prefix(t, seq!['.', '.', '/'])
    ||| has_prefix(t, seq!['.', '\\'])
    ||| has_prefix(t, seq!['.', '.', '\\'])
}

fn contains_char(t: &Vec<char>, c: char) -> (r: bool)
    ensures
        r == t@.contains(c),
{
    let mut i: usize = 0;
    while i < t.len()
        invariant
            0 <= i <= t.len(),
            forall|j: int| 0 <= j < i ==> t@[j] != c,
        decreases t.len() - i,
    {
        if t[i] == c {
            return true;
        }
        i += 1;
    }
    false
}

/// Whether the text `t` starts with the characters of `p`.
fn chars_start_with(t: &Vec<char>, p: &Vec<char>) -> (r: bool)
    ensures
        r == has_prefix(t@, p@),
{
    if p.len() > t.len() {
        return false;
    }
    let mut i: usize = 0;
    while i < p.len()
        invariant
            0 <= i <= p.len(),
            p.len() <= t.len(),
            forall|j: int| 0 <= j < i ==> t@[j] == p@[j],
        decreases p.len() - i,
    {
        if t[i] != p[i] {
            assert(t@.subrange(0, p@.len() as int)[i as int] != p@[i as int]);
            return false;
        }
        i += 1;
    }
    assert(t@.subrange(0, p@.len() as int) =~= p@);
    true
}

/// Whether the text `t` ends with the characters of `p`.
fn chars_end_with(t: &Vec<char>, p: &Vec<char>) -> (r: bool)
    ensures
        r == has_suffix(t@, p@),
{
    if p.len() > t.len() {
        return false;
    }
    let off = t.len() - p.len();
    let mut i: usize = 0;
    while i < p.len()
        invariant
            0 <= i <= p.len(),
            off + p.len() == t.len(),
            forall|j: int| 0 <= j < i ==> t@[off + j] == p@[j],
        decreases p.len() - i,
    {
        if t[off + i] != p[i] {
            assert(t@.subrange(off as int, t@.len() as int)[i as int] != p@[i as int]);
            return false;
        }
        i += 1;
    }
    assert(t@.subrange(off as int, t@.len() as int) =~= p@);
    true
}

} // verus!

verus! {

/// Whether a byte is an ASCII letter or digit, or `_`.
pub open spec fn ident_byte(byte: u8) -> bool {
    (48 <= byte <= 57) || (65 <= byte <= 90) || (97 <= byte <= 122) || byte == 95
}

/// Whether a byte may appear in an identifier, as `ident_byte` states.
pub fn is_identifier_byte(byte: u8) -> (r: bool)
    ensures
        r == ident_byte(byte),
{
    (byte >= 48 && byte <= 57) || (byte >= 65 && byte <= 90) || (byte >= 97 && byte <= 122)
        || byte == 95
}

/// The nearest character boundary of UTF-8 bytes `b` at or before `n`.
pub open spec fn char_floor(b: Seq<u8>, n: int) -> int
    decreases n,
{
    if n <= 0 || vstd::utf8::is_char_boundary(b, n) {
        n
    } else {
        char_floor(b, n - 1)
    }
}

/// Moves `offset` back onto the nearest UTF-8 character boundary of `text`
/// at or before it, first clamping it to the text's length.
pub fn clamp_to_char_boundary(text: &str, offset: usize) -> (r: usize)
    ensures
        r == char_floor(text.spec_bytes(), if offset < text.len() { offset as int } else { text.len() as int }),
        r <= offset,
        r <= text.len(),
        r == 0 || vstd::utf8::is_char_boundary(text.spec_bytes(), r as int),
        forall|j: int|
            r < j <= offset && j <= text.len() ==> !vstd::utf8::is_char_boundary(
                text.spec_bytes(),
                j,
            ),
{
    let top = if offset < text.len() {
        offset
    } else {
        text.len()
    };
    let mut pos = top;
    while pos > 0 && !text.is_char_boundary(pos)
        invariant
            pos <= top,
            top <= offset,
            top <= text.len(),
            top == offset || top == text.len(),
            forall|j: int| pos < j <= top ==> !vstd::utf8::is_char_boundary(text.spec_bytes(), j),
            char_floor(text.spec_bytes(), pos as int) == char_floor(text.spec_bytes(), top as int),
        decreases pos,
    {
        pos -= 1;
    }
    pos
}

/// Position of the last occurrence of `c` in `t`, or -1.
pub open spec fn last_index_of(t: Seq<char>, c: char) -> int
    decreases t.len(),
{
    if t.len() == 0 {
        -1
    } else if t[t.len() - 1] == c {
        t.len() - 1
    } else {
        last_index_of(t.drop_last(), c)
    }
}

pub proof fn lemma_last_index_of(t: Seq<char>, c: char)
    ensures
        -1 <= last_index_of(t, c) < t.len(),
        last_index_of(t, c) >= 0 ==> t[last_index_of(t, c)] == c,
        forall|j: int| last_index_of(t, c) < j < t.len() ==> t[j] != c,
    decreases t.len(),
{
    if t.len() > 0 && t[t.len() - 1] != c {
        lemma_last_index_of(t.drop_last(), c);
        assert forall|j: int| last_index_of(t, c) < j < t.len() implies t[j] != c by {
            if j < t.len() - 1 {
                assert(t.drop_last()[j] == t[j]);
            }
        }
    }
}

/// The alias proposed for importing `module_name`: its last `/`-separated
/// segment, or the whole name when that segment is empty.
pub open spec fn import_alias(t: Seq<char>) -> Seq<char> {
    let seg = t.subrange(last_index_of(t, '/') + 1, t.len() as int);
    if seg.len() > 0 {
        seg
    } else {
        t
    }
}

/// Proposes an import alias for a module: the last segment of its name.
pub fn auto_import_alias(module_name: &str) -> (r: String)
    ensures
        r@ == import_alias(module_name@),
{
    let t = chars_of(module_name);
    let n = t.len();
    let mut k: usize = n;
    while k > 0 && t[k - 1] != '/'
        invariant
            0 <= k <= n,
            n == t@.len(),
            forall|j: int| k <= j < n ==> t@[j] != '/',
        decreases k,
    {
        k -= 1;
    }
    proof {
        lemma_last_index_of(t@, '/');
        let l = last_index_of(t@, '/');
        if k > 0 {
            assert(t@[k - 1] == '/');
            assert(l >= k - 1);
        }
        assert(l + 1 == k);
    }
    if k < n {
        module_name.substring_char(k, n).to_owned()
    } else {
        module_name.to_owned()
    }
}

/// Counts the positions where a non-empty `/`-separated segment starts,
/// among the first `n` characters of `t`.
pub open spec fn segment_starts(t: Seq<char>, n: int) -> nat
    decreases n,
{
    if n <= 0 {
        0
    } else {
        segment_starts(t, n - 1) + if t[n - 1] != '/' && (n - 1 == 0 || t[n - 2] == '/') {
            1nat
        } else {
            0nat
        }
    }
}

/// The number of non-empty `/`-separated segments of `t`.
pub open spec fn segment_count(t: Seq<char>) -> nat {
    segment_starts(t, t.len() as int)
}

/// The ranking cost of importing a module: its nesting depth, capped at 6.
pub open spec fn import_cost(t: Seq<char>) -> int {
    let depth = if segment_count(t) == 0 {
        0
    } else {
        segment_count(t) - 1
    };
    if depth < 6 {
        depth
    } else {
        6
    }
}

/// Ranks a candidate module for an automatic import by how deeply nested it is.
pub fn auto_import_cost(module_name: &str) -> (r: u8)
    ensures
        r == import_cost(module_name@),
{
    let t = chars_of(module_name);
    let mut count: usize = 0;
    let mut i: usize = 0;
    while i < t.len()
        invariant
            0 <= i <= t.len(),
            count == segment_starts(t@, i as int),
            count <= i,
        decreases t.len() - i,
    {
        if t[i] != '/' && (i == 0 || t[i - 1] == '/') {
            count += 1;
        }
        i += 1;
    }
    let depth = if count == 0 {
        0
    } else {
        count - 1
    };
    if depth < 6 {
        depth as u8
    } else {
        6
    }
}

} // verus!

verus! {

/// The decimal digit for `d < 10`.
pub open spec fn digit_char(d: nat) -> char {
    if d == 0 {
        '0'
    } else if d == 1 {
        '1'
    } else if d == 2 {
        '2'
    } else if d == 3 {
        '3'
    } else if d == 4 {
        '4'
    } else if d == 5 {
        '5'
    } else if d == 6 {
        '6'
    } else if d == 7 {
        '7'
    } else if d == 8 {
        '8'
    } else {
        '9'
    }
}

/// The decimal rendering of `n`, as `format!("{n}")` writes it.
pub open spec fn decimal(n: nat) -> Seq<char>
    decreases n,
{
    if n < 10 {
        seq![digit_char(n)]
    } else {
        decimal(n / 10).push(digit_char(n % 10))
    }
}

proof fn lemma_decimal_len(n: nat)
    ensures
        decimal(n).len() >= 1,
        n >= 10 ==> decimal(n).len() >= 2,
    decreases n,
{
    if n >= 10 {
        lemma_decimal_len(n / 10);
    }
}

/// Distinct numbers have distinct decimal renderings.
pub proof fn lemma_decimal_injective(a: nat, b: nat)
    requires
        decimal(a) == decimal(b),
    ensures
        a == b,
    decreases a + b,
{
    lemma_decimal_len(a);
    lemma_decimal_len(b);
    if a >= 10 && b >= 10 {
        let da = decimal(a);
        let db = decimal(b);
        assert(da[da.len() - 1] == digit_char(a % 10));
        assert(db[db.len() - 1] == digit_char(b % 10));
        assert(decimal(a / 10) =~= da.drop_last());
        assert(decimal(b / 10) =~= db.drop_last());
        lemma_decimal_injective(a / 10, b / 10);
    } else if a < 10 && b < 10 {
        assert(decimal(a)[0] == digit_char(a));
        assert(decimal(b)[0] == digit_char(b));
    }
}

fn digit_str(d: usize) -> (s: &'static str)
    requires
        d < 10,
    ensures
        s@ == seq![digit_char(d as nat)],
{
    proof {
        reveal_strlit("0");
        reveal_strlit("1");
        reveal_strlit("2");
        reveal_strlit("3");
        reveal_strlit("4");
        reveal_strlit("5");
        reveal_strlit("6");
        reveal_strlit("7");
        reveal_strlit("8");
        reveal_strlit("9");
    }
    let s = if d == 0 {
        "0"
    } else if d == 1 {
        "1"
    } else if d == 2 {
        "2"
    } else if d == 3 {
        "3"
    } else if d == 4 {
        "4"
    } else if d == 5 {
        "5"
    } else if d == 6 {
        "6"
    } else if d == 7 {
        "7"
    } else if d == 8 {
        "8"
    } else {
        "9"
    };
    assert(s@ =~= seq![digit_char(d as nat)]);
    s
}

/// Renders `n` in decimal.
pub fn decimal_string(n: usize) -> (r: String)
    ensures
        r@ == decimal(n as nat),
    decreases n,
{
    if n < 10 {
        digit_str(n).to_owned()
    } else {
        let mut s = decimal_string(n / 10);
        s.append(digit_str(n % 10));
        s
    }
}

/// The `k`-th alternative alias `base_k` tried when `base` is taken.
pub open spec fn numbered_alias(base: Seq<char>, k: nat) -> Seq<char> {
    base + seq!['_'] + decimal(k)
}

/// The aliases already in use, as character sequences.
pub open spec fn alias_set(taken: Seq<String>) -> Set<Seq<char>> {
    taken.map_values(|s: String| s@).to_set()
}

/// The alias chosen for importing a module whose plain alias is `base`:
/// `base` itself when it is free, else `base_k` for the least `k >= 1` that is free.
pub open spec fn alias_choice_ok(base: Seq<char>, taken: Set<Seq<char>>, r: Seq<char>) -> bool {
    if !taken.contains(base) {
        r == base
    } else {
        exists|k: nat|
            k >= 1 && r == numbered_alias(base, k) && !taken.contains(numbered_alias(base, k))
                && forall|j: nat| 1 <= j < k ==> taken.contains(#[trigger] numbered_alias(base, j))
    }
}

pub(crate) fn contains_string(taken: &[String], s: &String) -> (r: bool)
    ensures
        r == alias_set(taken@).contains(s@),
{
    let ghost views = taken@.map_values(|x: String| x@);
    let mut i: usize = 0;
    while i < taken.len()
        invariant
            0 <= i <= taken.len(),
            views == taken@.map_values(|x: String| x@),
            forall|j: int| 0 <= j < i ==> views[j] != s@,
        decreases taken.len() - i,
    {
        if taken[i] == *s {
            assert(views[i as int] == s@);
            return true;
        }
        i += 1;
    }
    assert(!views.contains(s@));
    false
}

proof fn lemma_numbered_alias_distinct(base: Seq<char>, a: nat, b: nat)
    requires
        numbered_alias(base, a) == numbered_alias(base, b),
    ensures
        a == b,
{
    let na = numbered_alias(base, a);
    let nb = numbered_alias(base, b);
    assert(decimal(a) =~= na.subrange(base.len() + 1int, na.len() as int));
    assert(decimal(b) =~= nb.subrange(base.len() + 1int, nb.len() as int));
    lemma_decimal_injective(a, b);
}

/// The set of `base` and its first `k` numbered alternatives.
spec fn tried_aliases(base: Seq<char>, k: nat) -> Set<Seq<char>>
    decreases k,
{
    if k == 0 {
        set![base]
    } else {
        tried_aliases(base, (k - 1) as nat).insert(numbered_alias(base, k))
    }
}

proof fn lemma_tried_aliases(base: Seq<char>, k: nat)
    ensures
        tried_aliases(base, k).finite(),
        tried_aliases(base, k).len() == k + 1,
        forall|s: Seq<char>|
            #[trigger] tried_aliases(base, k).contains(s) ==> s == base || exists|j: nat|
                1 <= j <= k && s == numbered_alias(base, j),
    decreases k,
{
    if k > 0 {
        lemma_tried_aliases(base, (k - 1) as nat);
        let prev = tried_aliases(base, (k - 1) as nat);
        let n = numbered_alias(base, k);
        if prev.contains(n) {
            if n == base {
                assert(n.len() > base.len());
            } else {
                let j = choose|j: nat| 1 <= j <= k - 1 && n == numbered_alias(base, j);
                lemma_numbered_alias_distinct(base, j, k);
            }
        }
    }
}

/// Whenever `base` and its first `k` alternatives are all taken, more than
/// `k` aliases are taken.
proof fn lemma_alias_pigeonhole(base: Seq<char>, taken: Seq<String>, k: nat)
    requires
        alias_set(taken).contains(base),
        forall|j: nat| 1 <= j <= k ==> alias_set(taken).contains(#[trigger] numbered_alias(base, j)),
    ensures
        k + 1 <= taken.len(),
{
    let views = taken.map_values(|s: String| s@);
    lemma_tried_aliases(base, k);
    assert(tried_aliases(base, k).subset_of(alias_set(taken))) by {
        assert forall|s: Seq<char>| #[trigger] tried_aliases(base, k).contains(s) implies alias_set(
            taken,
        ).contains(s) by {
            if s != base {
                let j = choose|j: nat| 1 <= j <= k && s == numbered_alias(base, j);
                assert(alias_set(taken).contains(numbered_alias(base, j)));
            }
        }
    }
    views.lemma_cardinality_of_set();
    vstd::set_lib::lemma_len_subset(tried_aliases(base, k), alias_set(taken));
}

/// Chooses an import alias for `module_name` that none of `taken_aliases` uses:
/// its plain alias, or that alias with the least free numeric suffix.
pub fn auto_import_alias_for_module(module_name: &str, taken_aliases: &[String]) -> (r: String)
    ensures
        alias_choice_ok(import_alias(module_name@), alias_set(taken_aliases@), r@),
{
    let base = auto_import_alias(module_name);
    if !contains_string(taken_aliases, &base) {
        return base;
    }
    let ghost taken = alias_set(taken_aliases@);
    let mut k: usize = 1;
    loop
        invariant
            1 <= k,
            taken == alias_set(taken_aliases@),
            base@ == import_alias(module_name@),
            taken.contains(base@),
            forall|j: nat| 1 <= j < k ==> taken.contains(#[trigger] numbered_alias(base@, j)),
        decreases taken_aliases@.len() + 1 - k,
    {
        let mut candidate = base.clone();
        candidate.append("_");
        let digits = decimal_string(k);
        candidate.append(digits.as_str());
        proof {
            reveal_strlit("_");
            assert(candidate@ =~= numbered_alias(base@, k as nat));
        }
        if !contains_string(taken_aliases, &candidate) {
            return candidate;
        }
        proof {
            lemma_alias_pigeonhole(base@, taken_aliases@, k as nat);
        }
        assert(k < taken_aliases.len());
        k += 1;
    }
}

} // verus!

verus! {

/// Whether `p` occurs in `t` starting at position `i`.
fn occurs_at(t: &Vec<char>, p: &Vec<char>, i: usize) -> (r: bool)
    requires
        i + p.len() <= t.len(),
    ensures
        r == (t@.subrange(i as int, i + p@.len()) == p@),
{
    let mut j: usize = 0;
    while j < p.len()
        invariant
            0 <= j <= p.len(),
            i + p.len() <= t.len(),
            forall|k: int| 0 <= k < j ==> t@[i + k] == p@[k],
        decreases p.len() - j,
    {
        if t[i + j] != p[j] {
            assert(t@.subrange(i as int, i + p@.len())[j as int] != p@[j as int]);
            return false;
        }
        j += 1;
    }
    assert(t@.subrange(i as int, i + p@.len()) =~= p@);
    true
}

/// Whether `p` occurs in `t` as a contiguous run.
pub fn chars_contain(t: &Vec<char>, p: &Vec<char>) -> (r: bool)
    ensures
        r == has_infix(t@, p@),
{
    if p.len() > t.len() {
        return false;
    }
    let last = t.len() - p.len();
    let mut i: usize = 0;
    while i <= last
        invariant
            p.len() <= t.len(),
            last == t.len() - p.len(),
            0 <= i <= last + 1,
            forall|k: int| 0 <= k < i ==> #[trigger] t@.subrange(k, k + p@.len()) != p@,
        decreases last + 1 - i,
    {
        if occurs_at(t, p, i) {
            return true;
        }
        if i == last {
            return false;
        }
        i += 1;
    }
    false
}

/// Whether the text `t` starts with the characters of `p`.
pub fn chars_start(t: &Vec<char>, p: &Vec<char>) -> (r: bool)
    ensures
        r == has_prefix(t@, p@),
{
    chars_start_with(t, p)
}

/// Whether the text `t` ends with the characters of `p`.
pub fn chars_end(t: &Vec<char>, p: &Vec<char>) -> (r: bool)
    ensures
        r == has_suffix(t@, p@),
{
    chars_end_with(t, p)
}

/// A character with ASCII upper-case letters mapped to lower case.
pub open spec fn ascii_lower_char(c: char) -> char {
    if 'A' <= c && c <= 'Z' {
        ((c as int) + 32) as char
    } else {
        c
    }
}

/// A text with ASCII upper-case letters mapped to lower case.
pub open spec fn ascii_lower(s: Seq<char>) -> Seq<char> {
    s.map_values(|c: char| ascii_lower_char(c))
}

/// The text with each ASCII upper-case letter mapped to its lower-case
/// letter and every other character kept, as `str::to_ascii_lowercase` does.
pub fn to_ascii_lowercase(s: &str) -> (r: String)
    ensures
        r@ == ascii_lower(s@),
{
    let letters = "abcdefghijklmnopqrstuvwxyz";
    proof {
        reveal_strlit("abcdefghijklmnopqrstuvwxyz");
        assert forall|k: int| 0 <= k < 26 implies #[trigger] letters@[k] as int == 97 + k by {
            assert(k == 0 || k == 1 || k == 2 || k == 3 || k == 4 || k == 5 || k == 6 || k == 7 || k == 8 || k == 9
                || k == 10 || k == 11 || k == 12 || k == 13 || k == 14 || k == 15 || k == 16 || k == 17 || k == 18
                || k == 19 || k == 20 || k == 21 || k == 22 || k == 23 || k == 24 || k == 25);
        }
    }
    let t = chars_of(s);
    let mut out = String::new();
    let mut i: usize = 0;
    while i < t.len()
        invariant
            0 <= i <= t.len(),
            t@ == s@,
            letters@.len() == 26,
            forall|k: int| 0 <= k < 26 ==> #[trigger] letters@[k] as int == 97 + k,
            out@ == ascii_lower(s@.take(i as int)),
        decreases t.len() - i,
    {
        let ghost before = out@;
        let c = t[i];
        if 'A' <= c && c <= 'Z' {
            let k: usize = (c as u32 - 65) as usize;
            let piece = letters.substring_char(k, k + 1);
            out.append(piece);
            assert(letters@[k as int] as int == 97 + k);
            assert(piece@ =~= seq![ascii_lower_char(c)]);
        } else {
            let piece = s.substring_char(i, i + 1);
            out.append(piece);
            assert(piece@ =~= seq![ascii_lower_char(c)]);
        }
        assert(out@ =~= before.push(ascii_lower_char(s@[i as int])));
        assert(ascii_lower(s@.take(i + 1)) =~= ascii_lower(s@.take(i as int)).push(ascii_lower_char(s@[i as int])));
        i += 1;
    }
    assert(s@.take(i as int) =~= s@);
    out
}

/// The parts joined with `sep` between neighbours.
pub open spec fn join_with(parts: Seq<Seq<char>>, sep: Seq<char>) -> Seq<char>
    decreases parts.len(),
{
    if parts.len() == 0 {
        Seq::empty()
    } else if parts.len() == 1 {
        parts[0]
    } else {
        join_with(parts.drop_last(), sep) + sep + parts.last()
    }
}

/// Joins the strings with `sep` between neighbours.
pub fn join_strings(parts: &[String], sep: &str) -> (r: String)
    ensures
        r@ == join_with(Seq::new(parts@.len(), |i: int| parts@[i]@), sep@),
{
    let ghost pv = Seq::new(parts@.len(), |i: int| parts@[i]@);
    let mut out = String::new();
    let mut i: usize = 0;
    assert(pv.take(0) =~= Seq::<Seq<char>>::empty());
    while i < parts.len()
        invariant
            0 <= i <= parts.len(),
            pv == Seq::new(parts@.len(), |i: int| parts@[i]@),
            out@ == join_with(pv.take(i as int), sep@),
        decreases parts.len() - i,
    {
        if i > 0 {
            out.append(sep);
        }
        out.append(parts[i].as_str());
        proof {
            let t = pv.take(i + 1);
            assert(t.drop_last() =~= pv.take(i as int));
            assert(t.last() == parts@[i as int]@);
            if i == 0 {
                assert(out@ =~= t[0]);
            }
        }
        i += 1;
    }
    assert(pv.take(parts.len() as int) =~= pv);
    out
}

} // verus!

verus! {

/// The characters with the Unicode `White_Space` property, which
/// `char::is_whitespace` and `str::trim` go by.
pub open spec fn is_whitespace(c: char) -> bool {
    let u = c as int;
    (0x09 <= u <= 0x0d) || u == 0x20 || u == 0x85 || u == 0xa0 || u == 0x1680 || (0x2000 <= u
        <= 0x200a) || u == 0x2028 || u == 0x2029 || u == 0x202f || u == 0x205f || u == 0x3000
}

pub(crate) fn is_whitespace_exec(c: char) -> (r: bool)
    ensures
        r == is_whitespace(c),
{
    let u = c as u32;
    (0x09 <= u && u <= 0x0d) || u == 0x20 || u == 0x85 || u == 0xa0 || u == 0x1680 || (0x2000 <= u
        && u <= 0x200a) || u == 0x2028 || u == 0x2029 || u == 0x202f || u == 0x205f || u == 0x3000
}

/// The text without leading and trailing whitespace.
pub open spec fn trimmed(s: Seq<char>) -> Seq<char>
    decreases s.len(),
{
    if s.len() == 0 {
        s
    } else if is_whitespace(s[0]) {
        trimmed(s.drop_first())
    } else if is_whitespace(s[s.len() - 1]) {
        trimmed(s.drop_last())
    } else {
        s
    }
}

proof fn lemma_trimmed_window(s: Seq<char>, a: int, b: int)
    requires
        0 <= a <= b <= s.len(),
        forall|i: int| 0 <= i < a ==> is_whitespace(#[trigger] s[i]),
        forall|i: int| b <= i < s.len() ==> is_whitespace(#[trigger] s[i]),
        a == b || (!is_whitespace(s[a]) && !is_whitespace(s[b - 1])),
    ensures
        trimmed(s) == s.subrange(a, b),
    decreases s.len(),
{
    if s.len() == 0 {
        assert(s.subrange(a, b) =~= s);
    } else if is_whitespace(s[0]) {
        if a == 0 {
            // then a == b == 0, and everything is whitespace
            assert(a == b);
            lemma_trimmed_window(s.drop_first(), 0, 0);
            assert(s.subrange(a, b) =~= s.drop_first().subrange(0, 0));
        } else {
            lemma_trimmed_window(s.drop_first(), a - 1, b - 1);
            assert(s.drop_first().subrange(a - 1, b - 1) =~= s.subrange(a, b));
        }
    } else if is_whitespace(s[s.len() - 1]) {
        assert(a == 0);
        if b == s.len() {
            assert(a < b);
        }
        lemma_trimmed_window(s.drop_last(), a, b);
        assert(s.drop_last().subrange(a, b) =~= s.subrange(a, b));
    } else {
        assert(a == 0);
        if a == b {
            assert(is_whitespace(s[0]));
        }
        if b < s.len() {
            assert(is_whitespace(s[s.len() - 1]));
        }
        assert(s.subrange(a, b) =~= s);
    }
}

/// The text without leading and trailing whitespace, as `str::trim` gives it.
pub fn trim_text(s: &str) -> (r: &str)
    ensures
        r@ == trimmed(s@),
{
    let t = chars_of(s);
    let n = t.len();
    let mut a: usize = 0;
    while a < n && is_whitespace_exec(t[a])
        invariant
            0 <= a <= n,
            n == t@.len(),
            forall|i: int| 0 <= i < a ==> is_whitespace(#[trigger] t@[i]),
        decreases n - a,
    {
        a += 1;
    }
    let mut b: usize = n;
    while b > a && is_whitespace_exec(t[b - 1])
        invariant
            a <= b <= n,
            n == t@.len(),
            forall|i: int| b <= i < n ==> is_whitespace(#[trigger] t@[i]),
        decreases b,
    {
        b -= 1;
    }
    proof {
        lemma_trimmed_window(t@, a as int, b as int);
    }
    s.substring_char(a, b)
}

/// Every earlier element is below every later one.
pub open spec fn strictly_sorted(l: Seq<Seq<char>>) -> bool {
    forall|i: int, j: int| 0 <= i < j < l.len() ==> chars_lt(#[trigger] l[i], #[trigger] l[j])
}

/// A strictly sorted list is the only one that lists its elements in that
/// order.
pub proof fn lemma_strictly_sorted_unique(l1: Seq<Seq<char>>, l2: Seq<Seq<char>>)
    requires
        strictly_sorted(l1),
        strictly_sorted(l2),
        l1.to_set() == l2.to_set(),
    ensures
        l1 == l2,
    decreases l1.len(),
{
    if l1.len() == 0 {
        if l2.len() > 0 {
            assert(l2.to_set().contains(l2[0]));
        }
        assert(l1 =~= l2);
    } else {
        assert(l1.to_set().contains(l1[0]));
        assert(l2.len() > 0);
        assert(l2.to_set().contains(l2[0]));
        let j = choose|j: int| 0 <= j < l2.len() && l2[j] == l1[0];
        let i = choose|i: int| 0 <= i < l1.len() && l1[i] == l2[0];
        if j > 0 {
            assert(chars_lt(l2[0], l2[j]));
            if i > 0 {
                assert(chars_lt(l1[0], l1[i]));
                lemma_chars_lt_asymmetric(l1[0], l1[i]);
            } else {
                lemma_chars_lt_irreflexive(l1[0]);
            }
        }
        let t1 = l1.drop_first();
        let t2 = l2.drop_first();
        assert forall|a: int, b: int| 0 <= a < b < t1.len() implies chars_lt(#[trigger] t1[a], #[trigger] t1[b]) by {
            assert(t1[a] == l1[a + 1] && t1[b] == l1[b + 1]);
        }
        assert forall|a: int, b: int| 0 <= a < b < t2.len() implies chars_lt(#[trigger] t2[a], #[trigger] t2[b]) by {
            assert(t2[a] == l2[a + 1] && t2[b] == l2[b + 1]);
        }
        assert forall|x: Seq<char>| #[trigger] t1.to_set().contains(x) == t2.to_set().contains(x) by {
            if t1.to_set().contains(x) {
                let a = choose|a: int| 0 <= a < t1.len() && t1[a] == x;
                assert(l1[a + 1] == x);
                assert(chars_lt(l1[0], l1[a + 1]));
                assert(l1.to_set().contains(x));
                assert(l2.to_set().contains(x));
                let b = choose|b: int| 0 <= b < l2.len() && l2[b] == x;
                if b == 0 {
                    lemma_chars_lt_irreflexive(x);
                }
                assert(t2[b - 1] == x);
            }
            if t2.to_set().contains(x) {
                let a = choose|a: int| 0 <= a < t2.len() && t2[a] == x;
                assert(l2[a + 1] == x);
                assert(chars_lt(l2[0], l2[a + 1]));
                assert(l2.to_set().contains(x));
                assert(l1.to_set().contains(x));
                let b = choose|b: int| 0 <= b < l1.len() && l1[b] == x;
                if b == 0 {
                    lemma_chars_lt_irreflexive(x);
                }
                assert(t1[b - 1] == x);
            }
        }
        assert(t1.to_set() =~= t2.to_set());
        lemma_strictly_sorted_unique(t1, t2);
        assert(l1 =~= seq![l1[0]] + t1);
        assert(l2 =~= seq![l2[0]] + t2);
    }
}

/// The texts of a list of strings.
pub open spec fn texts(v: Seq<String>) -> Seq<Seq<char>> {
    Seq::new(v.len(), |i: int| v[i]@)
}

/// Inserts `x` into a strictly sorted list of strings unless it is already
/// there, keeping the list strictly sorted.
pub fn insert_sorted_unique(list: &mut Vec<String>, x: String)
    requires
        strictly_sorted(texts(old(list)@)),
    ensures
        strictly_sorted(texts(final(list)@)),
        forall|y: Seq<char>| #[trigger] texts(final(list)@).contains(y) <==> (texts(old(list)@).contains(y) || y == x@),
{
    let ghost lv = texts(list@);
    let mut p: usize = 0;
    while p < list.len() && str_less(list[p].as_str(), x.as_str())
        invariant
            0 <= p <= list.len(),
            lv == texts(list@),
            forall|i: int| 0 <= i < p ==> chars_lt(#[trigger] lv[i], x@),
        decreases list.len() - p,
    {
        p += 1;
    }
    if p < list.len() && list[p] == x {
        assert(lv[p as int] == x@);
        assert(lv.contains(x@));
        return;
    }
    proof {
        if p < lv.len() {
            lemma_chars_lt_total(lv[p as int], x@);
        }
    }
    list.insert(p, x);
    proof {
        let nv = texts(list@);
        assert(nv =~= lv.insert(p as int, x@));
        assert forall|i: int, j: int| 0 <= i < j < nv.len() implies chars_lt(
            #[trigger] nv[i],
            #[trigger] nv[j],
        ) by {
            if j == p {
                assert(chars_lt(lv[i], x@));
            } else if i == p {
                assert(chars_lt(x@, lv[p as int]));
                if j - 1 > p {
                    assert(chars_lt(lv[p as int], lv[j - 1]));
                    lemma_chars_lt_transitive(x@, lv[p as int], lv[j - 1]);
                }
            } else if i < p && j > p {
                assert(chars_lt(lv[i], lv[j - 1]));
            } else if i > p {
                assert(chars_lt(lv[i - 1], lv[j - 1]));
            } else {
                assert(chars_lt(lv[i], lv[j]));
            }
        }
        assert forall|y: Seq<char>| nv.contains(y) <==> (lv.contains(y) || y == x@) by {
            if nv.contains(y) {
                let k = choose|k: int| 0 <= k < nv.len() && nv[k] == y;
                if k < p {
                    assert(lv[k] == y);
                } else if k > p {
                    assert(lv[k - 1] == y);
                }
            }
            if lv.contains(y) {
                let k = choose|k: int| 0 <= k < lv.len() && lv[k] == y;
                if k < p {
                    assert(nv[k] == y);
                } else {
                    assert(nv[k + 1] == y);
                }
            }
            if y == x@ {
                assert(nv[p as int] == y);
            }
        }
    }
}

pub proof fn lemma_trimmed_drops_trailing_whitespace(s: Seq<char>, c: char)
    requires
        is_whitespace(c),
    ensures
        trimmed(s.push(c)) == trimmed(s),
    decreases s.len(),
{
    let t = s.push(c);
    if s.len() == 0 {
        assert(t.drop_first() =~= s);
    } else if is_whitespace(s[0]) {
        lemma_trimmed_drops_trailing_whitespace(s.drop_first(), c);
        assert(t.drop_first() =~= s.drop_first().push(c));
    } else {
        assert(t.drop_last() =~= s);
    }
}

/// Whitespace around a text does not change what trimming leaves.
pub proof fn lemma_trimmed_padding(pre: Seq<char>, s: Seq<char>, post: Seq<char>)
    requires
        forall|i: int| 0 <= i < pre.len() ==> is_whitespace(#[trigger] pre[i]),
        forall|i: int| 0 <= i < post.len() ==> is_whitespace(#[trigger] post[i]),
    ensures
        trimmed(pre + s + post) == trimmed(s),
    decreases pre.len() + post.len(),
{
    if post.len() > 0 {
        let p = post.drop_last();
        lemma_trimmed_padding(pre, s, p);
        assert(pre + s + post =~= (pre + s + p).push(post.last()));
        assert(is_whitespace(post[post.len() - 1]));
        lemma_trimmed_drops_trailing_whitespace(pre + s + p, post.last());
    } else if pre.len() > 0 {
        let q = pre.drop_first();
        lemma_trimmed_padding(q, s, post);
        assert(is_whitespace(pre[0]));
        assert((pre + s + post).drop_first() =~= q + s + post);
    } else {
        assert(pre + s + post =~= s);
    }
}

/// Lower-casing ASCII letters and trimming whitespace can be done in either
/// order.
pub proof fn lemma_lower_trimmed(s: Seq<char>)
    ensures
        ascii_lower(trimmed(s)) == trimmed(ascii_lower(s)),
    decreases s.len(),
{
    let l = ascii_lower(s);
    if s.len() > 0 {
        assert(is_whitespace(l[0]) == is_whitespace(s[0]));
        assert(is_whitespace(l[l.len() - 1]) == is_whitespace(s[s.len() - 1]));
        if is_whitespace(s[0]) {
            lemma_lower_trimmed(s.drop_first());
            assert(ascii_lower(s.drop_first()) =~= l.drop_first());
        } else if is_whitespace(s[s.len() - 1]) {
            lemma_lower_trimmed(s.drop_last());
            assert(ascii_lower(s.drop_last()) =~= l.drop_last());
        }
    }
}

} // verus!
