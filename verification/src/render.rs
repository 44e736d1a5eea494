//! Source entries, their order, and the rendered document.

use tokei::LanguageType;
use vstd::prelude::*;

use crate::language::{language_name, language_tag};
use crate::text::{chars_of, copy_range, ends_with_newline, newline, string_of};

verus! {

/// One collected file.
#[derive(Debug)]
pub struct SourceEntry {
    /// The path shown above the file's block, with forward slashes.
    pub display_path: String,
    /// The file's text, with or without its comments.
    pub content: String,
    /// The file's language.
    pub language: LanguageType,
}

/// Whether `a`, read from position `from` on, comes before `b` or equals
/// it, in lexicographic order of bytes: at the first position where the two
/// differ the byte of `a` is the smaller one, or `a` ends first.
pub open spec fn bytes_le_from(a: Seq<u8>, b: Seq<u8>, from: int) -> bool
    decreases a.len() - from,
{
    if from < 0 || from >= a.len() {
        true
    } else if from >= b.len() {
        false
    } else if a[from] != b[from] {
        a[from] < b[from]
    } else {
        bytes_le_from(a, b, from + 1)
    }
}

/// Whether the path `a` comes before the path `b` or equals it, in
/// lexicographic order of their UTF-8 bytes.
pub open spec fn path_le(a: Seq<char>, b: Seq<char>) -> bool {
    bytes_le_from(vstd::utf8::encode_utf8(a), vstd::utf8::encode_utf8(b), 0)
}

/// Of two byte strings one comes before the other or equals it.
pub proof fn lemma_bytes_le_total(a: Seq<u8>, b: Seq<u8>, from: int)
    requires
        0 <= from,
    ensures
        bytes_le_from(a, b, from) || bytes_le_from(b, a, from),
    decreases a.len() - from,
{
    if from < a.len() && from < b.len() && a[from] == b[from] {
        lemma_bytes_le_total(a, b, from + 1);
    }
}

/// The order of byte strings is transitive.
pub proof fn lemma_bytes_le_transitive(a: Seq<u8>, b: Seq<u8>, c: Seq<u8>, from: int)
    requires
        0 <= from,
        bytes_le_from(a, b, from),
        bytes_le_from(b, c, from),
    ensures
        bytes_le_from(a, c, from),
    decreases a.len() - from,
{
    if from < a.len() && a[from] == b[from] && b[from] == c[from] {
        lemma_bytes_le_transitive(a, b, c, from + 1);
    }
}

/// Whether each entry's path comes before, or equals, the path of every
/// entry behind it.
pub open spec fn ordered(entries: Seq<SourceEntry>) -> bool {
    forall|i: int, j: int|
        #![trigger entries[i], entries[j]]
        0 <= i < j < entries.len() ==> path_le(entries[i].display_path@, entries[j].display_path@)
}

/// The first position at or after `from` whose entry does not come
/// strictly before `path`, or the length of `sorted` when there is none.
pub open spec fn insertion_point(path: Seq<char>, sorted: Seq<SourceEntry>, from: int) -> int
    decreases sorted.len() - from,
{
    if from < 0 || from >= sorted.len() || path_le(path, sorted[from].display_path@) {
        from
    } else {
        insertion_point(path, sorted, from + 1)
    }
}

/// The entries in order of their paths. Entries with equal paths keep the
/// order in which they came.
pub open spec fn sorted_by_path(entries: Seq<SourceEntry>) -> Seq<SourceEntry>
    decreases entries.len(),
{
    if entries.len() == 0 {
        Seq::empty()
    } else {
        let rest = sorted_by_path(entries.drop_first());
        rest.insert(insertion_point(entries[0].display_path@, rest, 0), entries[0])
    }
}

/// `insertion_point` lies within bounds, every entry between `from` and it
/// comes strictly before `path`, and the entry at it does not.
pub proof fn lemma_insertion_point(path: Seq<char>, sorted: Seq<SourceEntry>, from: int)
    requires
        0 <= from <= sorted.len(),
    ensures
        from <= insertion_point(path, sorted, from) <= sorted.len(),
        forall|j: int|
            from <= j < insertion_point(path, sorted, from) ==> !path_le(
                path,
                (#[trigger] sorted[j]).display_path@,
            ),
        insertion_point(path, sorted, from) < sorted.len() ==> path_le(
            path,
            sorted[insertion_point(path, sorted, from)].display_path@,
        ),
    decreases sorted.len() - from,
{
    if from < sorted.len() && !path_le(path, sorted[from].display_path@) {
        lemma_insertion_point(path, sorted, from + 1);
    }
}

/// Putting an entry at its insertion point keeps an ordered sequence ordered.
pub proof fn lemma_insert_keeps_order(entry: SourceEntry, sorted: Seq<SourceEntry>)
    requires
        ordered(sorted),
    ensures
        ordered(sorted.insert(insertion_point(entry.display_path@, sorted, 0), entry)),
{
    let path = entry.display_path@;
    let at = insertion_point(path, sorted, 0);
    let longer = sorted.insert(at, entry);
    lemma_insertion_point(path, sorted, 0);
    assert forall|i: int, j: int|
        #![trigger longer[i], longer[j]]
        0 <= i < j < longer.len() implies path_le(
        longer[i].display_path@,
        longer[j].display_path@,
    ) by {
        let key = vstd::utf8::encode_utf8(path);
        if j < at {
            assert(longer[i] == sorted[i] && longer[j] == sorted[j]);
        } else if j == at {
            assert(longer[i] == sorted[i]);
            assert(longer[j] == entry);
            lemma_bytes_le_total(key, vstd::utf8::encode_utf8(sorted[i].display_path@), 0);
        } else if i < at {
            assert(longer[i] == sorted[i] && longer[j] == sorted[j - 1]);
        } else if i == at {
            assert(longer[i] == entry);
            assert(longer[j] == sorted[j - 1]);
            if j - 1 > at {
                assert(path_le(sorted[at].display_path@, sorted[j - 1].display_path@));
                lemma_bytes_le_transitive(
                    key,
                    vstd::utf8::encode_utf8(sorted[at].display_path@),
                    vstd::utf8::encode_utf8(sorted[j - 1].display_path@),
                    0,
                );
            }
        } else {
            assert(longer[i] == sorted[i - 1] && longer[j] == sorted[j - 1]);
        }
    }
}

/// Sorting by path gives the same entries, each as often as before, in
/// order of their paths.
pub proof fn lemma_sorted_by_path(entries: Seq<SourceEntry>)
    ensures
        ordered(sorted_by_path(entries)),
        sorted_by_path(entries).len() == entries.len(),
        sorted_by_path(entries).to_multiset() == entries.to_multiset(),
    decreases entries.len(),
{
    if entries.len() == 0 {
        assert(sorted_by_path(entries) =~= entries);
    } else {
        let rest = sorted_by_path(entries.drop_first());
        let at = insertion_point(entries[0].display_path@, rest, 0);
        lemma_sorted_by_path(entries.drop_first());
        lemma_insertion_point(entries[0].display_path@, rest, 0);
        lemma_insert_keeps_order(entries[0], rest);
        vstd::seq_lib::to_multiset_insert(rest, at, entries[0]);
        vstd::seq_lib::to_multiset_insert(entries.drop_first(), 0, entries[0]);
        assert(entries.drop_first().insert(0, entries[0]) =~= entries);
    }
}

/// Two byte strings of which each comes before the other or equals it are
/// the same.
pub proof fn lemma_bytes_le_antisymmetric(a: Seq<u8>, b: Seq<u8>, from: int)
    requires
        0 <= from <= a.len(),
        from <= b.len(),
        bytes_le_from(a, b, from),
        bytes_le_from(b, a, from),
    ensures
        a.len() == b.len(),
        forall|j: int| from <= j < a.len() ==> a[j] == b[j],
    decreases a.len() - from,
{
    if from < a.len() {
        lemma_bytes_le_antisymmetric(a, b, from + 1);
    }
}

/// Two paths of which each comes before the other or equals it are the same.
pub proof fn lemma_path_le_antisymmetric(a: Seq<char>, b: Seq<char>)
    requires
        path_le(a, b),
        path_le(b, a),
    ensures
        a == b,
{
    lemma_bytes_le_antisymmetric(vstd::utf8::encode_utf8(a), vstd::utf8::encode_utf8(b), 0);
    assert(vstd::utf8::encode_utf8(a) =~= vstd::utf8::encode_utf8(b));
    vstd::utf8::encode_utf8_decode_utf8(a);
    vstd::utf8::encode_utf8_decode_utf8(b);
}

/// Whether no two entries have the same path.
pub open spec fn distinct_paths(entries: Seq<SourceEntry>) -> bool {
    forall|i: int, j: int|
        #![trigger entries[i], entries[j]]
        0 <= i < entries.len() && 0 <= j < entries.len() && i != j ==> entries[i].display_path@
            != entries[j].display_path@
}

proof fn lemma_distinct_paths_carried(a: Seq<SourceEntry>, b: Seq<SourceEntry>)
    requires
        distinct_paths(a),
        a.to_multiset() == b.to_multiset(),
    ensures
        distinct_paths(b),
{
    assert(a.no_duplicates()) by {
        assert forall|i: int, j: int|
            0 <= i < a.len() && 0 <= j < a.len() && i != j implies a[i] != a[j] by {
            assert(a[i].display_path@ != a[j].display_path@);
        }
    }
    a.lemma_multiset_has_no_duplicates();
    b.lemma_multiset_has_no_duplicates_conv();
    assert forall|i: int, j: int|
        #![trigger b[i], b[j]]
        0 <= i < b.len() && 0 <= j < b.len() && i != j implies b[i].display_path@
        != b[j].display_path@ by {
        assert(b[i] != b[j]);
        assert(b.contains(b[i]) && b.contains(b[j]));
        vstd::seq_lib::to_multiset_contains(b, b[i]);
        vstd::seq_lib::to_multiset_contains(b, b[j]);
        vstd::seq_lib::to_multiset_contains(a, b[i]);
        vstd::seq_lib::to_multiset_contains(a, b[j]);
        let m = choose|m: int| 0 <= m < a.len() && a[m] == b[i];
        let n = choose|n: int| 0 <= n < a.len() && a[n] == b[j];
        assert(m != n);
        assert(a[m].display_path@ != a[n].display_path@);
    }
}

proof fn lemma_ordered_unique(s: Seq<SourceEntry>, t: Seq<SourceEntry>)
    requires
        ordered(s),
        ordered(t),
        distinct_paths(s),
        s.to_multiset() == t.to_multiset(),
    ensures
        s == t,
    decreases s.len(),
{
    vstd::seq_lib::to_multiset_len(s);
    vstd::seq_lib::to_multiset_len(t);
    if s.len() == 0 {
        assert(s =~= t);
    } else {
        let x = s[0];
        let y = t[0];
        assert(s.contains(x) && t.contains(y));
        vstd::seq_lib::to_multiset_contains(s, x);
        vstd::seq_lib::to_multiset_contains(t, x);
        vstd::seq_lib::to_multiset_contains(s, y);
        vstd::seq_lib::to_multiset_contains(t, y);
        let k = choose|k: int| 0 <= k < t.len() && t[k] == x;
        let m = choose|m: int| 0 <= m < s.len() && s[m] == y;
        if m != 0 {
            assert(path_le(s[0].display_path@, s[m].display_path@));
            if k != 0 {
                assert(path_le(t[0].display_path@, t[k].display_path@));
                lemma_path_le_antisymmetric(x.display_path@, y.display_path@);
            }
            assert(s[0].display_path@ != s[m].display_path@);
        }
        assert(x == y);
        vstd::seq_lib::to_multiset_remove(s, 0);
        vstd::seq_lib::to_multiset_remove(t, 0);
        let s_rest = s.drop_first();
        let t_rest = t.drop_first();
        assert(s.remove(0) =~= s_rest);
        assert(t.remove(0) =~= t_rest);
        assert(ordered(s_rest)) by {
            assert forall|i: int, j: int|
                #![trigger s_rest[i], s_rest[j]]
                0 <= i < j < s_rest.len() implies path_le(
                s_rest[i].display_path@,
                s_rest[j].display_path@,
            ) by {
                assert(s_rest[i] == s[i + 1] && s_rest[j] == s[j + 1]);
            }
        }
        assert(ordered(t_rest)) by {
            assert forall|i: int, j: int|
                #![trigger t_rest[i], t_rest[j]]
                0 <= i < j < t_rest.len() implies path_le(
                t_rest[i].display_path@,
                t_rest[j].display_path@,
            ) by {
                assert(t_rest[i] == t[i + 1] && t_rest[j] == t[j + 1]);
            }
        }
        assert(distinct_paths(s_rest)) by {
            assert forall|i: int, j: int|
                #![trigger s_rest[i], s_rest[j]]
                0 <= i < s_rest.len() && 0 <= j < s_rest.len() && i != j implies s_rest[i]
                .display_path@ != s_rest[j].display_path@ by {
                assert(s_rest[i] == s[i + 1] && s_rest[j] == s[j + 1]);
            }
        }
        lemma_ordered_unique(s_rest, t_rest);
        assert(s =~= seq![x] + s_rest);
        assert(t =~= seq![y] + t_rest);
    }
}

/// The order in which entries are found makes no difference: the same
/// entries, no two of them with the same path, are sorted into the same
/// sequence in whatever order they come.
pub proof fn lemma_order_found_irrelevant(a: Seq<SourceEntry>, b: Seq<SourceEntry>)
    requires
        distinct_paths(a),
        a.to_multiset() == b.to_multiset(),
    ensures
        sorted_by_path(a) == sorted_by_path(b),
{
    lemma_sorted_by_path(a);
    lemma_sorted_by_path(b);
    lemma_distinct_paths_carried(a, sorted_by_path(a));
    lemma_ordered_unique(sorted_by_path(a), sorted_by_path(b));
}

/// The three backticks that open and close a block.
pub open spec fn fence() -> Seq<char> {
    seq!['`', '`', '`']
}

/// The block of one entry: its path, an empty line, and its content between
/// fences, the opening one tagged with the language. The content ends with
/// a line terminator before the closing fence, its own or an added one.
pub open spec fn rendered_entry(entry: SourceEntry) -> Seq<char> {
    entry.display_path@ + seq![newline(), newline()] + fence() + language_tag(entry.language)
        + seq![newline()] + entry.content@ + (if ends_with_newline(entry.content@) {
        Seq::<char>::empty()
    } else {
        seq![newline()]
    }) + fence() + seq![newline()]
}

/// The blocks of the entries in the given order, with an empty line between
/// neighbours.
pub open spec fn rendered(entries: Seq<SourceEntry>) -> Seq<char>
    decreases entries.len(),
{
    if entries.len() == 0 {
        Seq::empty()
    } else if entries.len() == 1 {
        rendered_entry(entries[0])
    } else {
        rendered(entries.drop_last()) + seq![newline()] + rendered_entry(entries.last())
    }
}

fn bytes_precede(a: &[u8], b: &[u8]) -> (r: bool)
    ensures
        r == bytes_le_from(a@, b@, 0),
{
    let mut i: usize = 0;
    while i < a.len()
        invariant
            i <= a.len(),
            bytes_le_from(a@, b@, 0) == bytes_le_from(a@, b@, i as int),
        decreases a.len() - i,
    {
        if i >= b.len() {
            return false;
        }
        if a[i] != b[i] {
            return a[i] < b[i];
        }
        i += 1;
    }
    true
}

/// Whether the path `a` comes before the path `b` or equals it.
pub fn path_precedes(a: &str, b: &str) -> (r: bool)
    ensures
        r == path_le(a@, b@),
{
    bytes_precede(a.as_bytes(), b.as_bytes())
}

fn insertion_index(path: &str, sorted: &Vec<SourceEntry>) -> (at: usize)
    ensures
        at == insertion_point(path@, sorted@, 0),
        at <= sorted.len(),
{
    let mut at: usize = 0;
    while at < sorted.len()
        invariant
            at <= sorted.len(),
            insertion_point(path@, sorted@, 0) == insertion_point(path@, sorted@, at as int),
        decreases sorted.len() - at,
    {
        if path_precedes(path, sorted[at].display_path.as_str()) {
            return at;
        }
        at += 1;
    }
    at
}

/// Sorts the entries by display path, in lexicographic order of bytes.
/// Entries with equal paths keep the order in which they came.
pub fn sort_entries(entries: Vec<SourceEntry>) -> (sorted: Vec<SourceEntry>)
    ensures
        sorted@ == sorted_by_path(entries@),
        ordered(sorted@),
        sorted@.to_multiset() == entries@.to_multiset(),
{
    let ghost all = entries@;
    let mut pending = entries;
    let mut sorted: Vec<SourceEntry> = Vec::new();
    assert(all.skip(all.len() as int) =~= Seq::<SourceEntry>::empty());
    while pending.len() > 0
        invariant
            pending@ == all.take(pending.len() as int),
            pending.len() <= all.len(),
            sorted@ == sorted_by_path(all.skip(pending.len() as int)),
        decreases pending.len(),
    {
        let ghost before = pending.len() as int;
        match pending.pop() {
            Some(entry) => {
                proof {
                    let tail = all.skip(before - 1);
                    assert(tail[0] == entry);
                    assert(tail.drop_first() =~= all.skip(before));
                    assert(pending@ =~= all.take(before - 1));
                }
                let at = insertion_index(entry.display_path.as_str(), &sorted);
                sorted.insert(at, entry);
            },
            None => {},
        }
    }
    proof {
        assert(all.skip(0) =~= all);
        lemma_sorted_by_path(all);
    }
    sorted
}

fn push_fence(out: &mut Vec<char>)
    ensures
        final(out)@ == old(out)@ + fence(),
{
    out.push('`');
    out.push('`');
    out.push('`');
    assert(out@ =~= old(out)@ + fence());
}

fn render_entry_into(entry: &SourceEntry, out: &mut Vec<char>)
    ensures
        final(out)@ == old(out)@ + rendered_entry(*entry),
{
    let path = chars_of(entry.display_path.as_str());
    let tag = chars_of(language_name(entry.language));
    let content = chars_of(entry.content.as_str());
    copy_range(&path, 0, path.len(), out);
    out.push('\n');
    out.push('\n');
    push_fence(out);
    copy_range(&tag, 0, tag.len(), out);
    out.push('\n');
    copy_range(&content, 0, content.len(), out);
    if content.len() == 0 || content[content.len() - 1] != '\n' {
        out.push('\n');
    }
    push_fence(out);
    out.push('\n');
    assert(path@.subrange(0, path@.len() as int) =~= path@);
    assert(tag@.subrange(0, tag@.len() as int) =~= tag@);
    assert(content@.subrange(0, content@.len() as int) =~= content@);
    assert(out@ =~= old(out)@ + rendered_entry(*entry));
}

/// Renders the entries in the given order: one block for each, with an
/// empty line between neighbours.
pub fn render(entries: &Vec<SourceEntry>) -> (document: String)
    ensures
        document@ == rendered(entries@),
{
    let mut out: Vec<char> = Vec::new();
    let mut i: usize = 0;
    assert(entries@.take(0) =~= Seq::<SourceEntry>::empty());
    while i < entries.len()
        invariant
            i <= entries.len(),
            out@ == rendered(entries@.take(i as int)),
        decreases entries.len() - i,
    {
        let ghost done = entries@.take(i as int);
        let ghost more = entries@.take(i + 1);
        if i > 0 {
            out.push('\n');
        }
        render_entry_into(&entries[i], &mut out);
        proof {
            assert(more.drop_last() =~= done);
            assert(more.last() == entries@[i as int]);
            assert(out@ =~= rendered(more));
        }
        i += 1;
    }
    assert(entries@.take(entries.len() as int) =~= entries@);
    string_of(&out)
}

} // verus!
