use vstd::prelude::*;
use vstd::multiset::Multiset;
use vstd::utf8::is_ascii_chars;

verus! {

/// The lower-case form that `str::to_lowercase` gives of a text.
pub uninterp spec fn lowercased(text: Seq<char>) -> Seq<char>;

/// Calls `str::to_lowercase` of std. Claimed: the result is a function of the
/// text alone (std maps each char by Unicode's fixed lower-case tables, with no
/// locale), named `lowercased`. What that function is, char by char, is not stated.
#[verifier::external_body]
fn to_lowercase(text: &str) -> (lower: String)
    ensures
        lower@ == lowercased(text@),
{
    text.to_lowercase()
}

/// `c`, with an ASCII capital letter turned into its small letter.
pub open spec fn ascii_lower_char(c: char) -> char {
    if 'A' <= c <= 'Z' {
        ((c as int) + 32) as char
    } else {
        c
    }
}

/// `text` with each ASCII capital letter turned into its small letter, the
/// other chars as they are. On ASCII text this is what `str::to_lowercase` gives.
pub open spec fn ascii_lowered(text: Seq<char>) -> Seq<char> {
    Seq::new(text.len(), |i: int| ascii_lower_char(text[i]))
}

/// The small letter of the alphabet at `k`, from 0 for `a`.
fn small_letter(k: u8) -> (letter: &'static str)
    requires
        k < 26,
    ensures
        letter@ == seq![(('a' as u32) + k) as char],
{
    if k == 0 {
        proof { reveal_strlit("a"); }
        "a"
    } else if k == 1 {
        proof { reveal_strlit("b"); }
        "b"
    } else if k == 2 {
        proof { reveal_strlit("c"); }
        "c"
    } else if k == 3 {
        proof { reveal_strlit("d"); }
        "d"
    } else if k == 4 {
        proof { reveal_strlit("e"); }
        "e"
    } else if k == 5 {
        proof { reveal_strlit("f"); }
        "f"
    } else if k == 6 {
        proof { reveal_strlit("g"); }
        "g"
    } else if k == 7 {
        proof { reveal_strlit("h"); }
        "h"
    } else if k == 8 {
        proof { reveal_strlit("i"); }
        "i"
    } else if k == 9 {
        proof { reveal_strlit("j"); }
        "j"
    } else if k == 10 {
        proof { reveal_strlit("k"); }
        "k"
    } else if k == 11 {
        proof { reveal_strlit("l"); }
        "l"
    } else if k == 12 {
        proof { reveal_strlit("m"); }
        "m"
    } else if k == 13 {
        proof { reveal_strlit("n"); }
        "n"
    } else if k == 14 {
        proof { reveal_strlit("o"); }
        "o"
    } else if k == 15 {
        proof { reveal_strlit("p"); }
        "p"
    } else if k == 16 {
        proof { reveal_strlit("q"); }
        "q"
    } else if k == 17 {
        proof { reveal_strlit("r"); }
        "r"
    } else if k == 18 {
        proof { reveal_strlit("s"); }
        "s"
    } else if k == 19 {
        proof { reveal_strlit("t"); }
        "t"
    } else if k == 20 {
        proof { reveal_strlit("u"); }
        "u"
    } else if k == 21 {
        proof { reveal_strlit("v"); }
        "v"
    } else if k == 22 {
        proof { reveal_strlit("w"); }
        "w"
    } else if k == 23 {
        proof { reveal_strlit("x"); }
        "x"
    } else if k == 24 {
        proof { reveal_strlit("y"); }
        "y"
    } else {
        proof { reveal_strlit("z"); }
        "z"
    }
}

/// Lower-cases ASCII text: capital letters become small, the rest stays.
fn ascii_lowercase(text: &str) -> (lower: String)
    requires
        vstd::string::is_ascii(text),
    ensures
        lower@ == ascii_lowered(text@),
{
    broadcast use vstd::utf8::is_ascii_chars_nat_bound;

    let n = text.unicode_len();
    let mut lower = String::new();
    let mut i: usize = 0;
    while i < n
        invariant
            n == text@.len(),
            i <= n,
            vstd::string::is_ascii(text),
            lower@ =~= ascii_lowered(text@.take(i as int)),
        decreases n - i,
    {
        let b = text.get_ascii(i);
        let ghost c = text@[i as int];
        assert((c as nat) < 128);
        if 65 <= b && b <= 90 {
            lower.append(small_letter(b - 65));
            assert(ascii_lower_char(c) == (('a' as u32) + (b - 65) as u8) as char);
        } else {
            lower.append(text.substring_ascii(i, i + 1));
            assert(text@.subrange(i as int, i + 1) =~= seq![c]);
        }
        assert(ascii_lowered(text@.take(i + 1)) =~= ascii_lowered(text@.take(i as int)).push(
            ascii_lower_char(c),
        ));
        i += 1;
    }
    assert(text@.take(n as int) =~= text@);
    lower
}

/// What the scan learns of one regular file.
pub struct FileEntry {
    /// Whether the file could be opened for reading.
    pub readable: bool,
    /// The file name's extension, when it has one that is valid UTF-8.
    pub extension: Option<String>,
    /// The path as its `Debug` rendering shows it.
    pub display: String,
}

/// One entry of a directory listing.
pub enum Entry {
    Directory,
    File(FileEntry),
    Other,
}

/// What the scan does with an entry.
#[derive(Debug, Clone, Copy, PartialEq, Eq, Structural)]
pub enum Step {
    /// Scan the directory's own entries.
    Descend,
    /// The file was counted under its key.
    Counted,
    /// Neither a directory nor a regular file: nothing to do.
    Skipped,
}

/// The text that starts the key of a file that could not be read.
pub open spec fn unreadable_prefix() -> Seq<char> {
    seq!['u', 'n', 'r', 'e', 'a', 'd', 'a', 'b', 'l', 'e', ':', ' ']
}

/// The key under which a file is counted: the lower-cased extension of a
/// readable file (empty where it has none), else `unreadable: ` and its path.
pub open spec fn file_key(file: FileEntry) -> Seq<char> {
    if file.readable {
        match file.extension {
            Some(ext) => if is_ascii_chars(ext@) {
                ascii_lowered(ext@)
            } else {
                lowercased(ext@)
            },
            None => Seq::empty(),
        }
    } else {
        unreadable_prefix() + file.display@
    }
}

/// The key of a file, as `file_key` defines it.
pub fn extension_key(file: &FileEntry) -> (key: String)
    ensures
        key@ == file_key(*file),
{
    if file.readable {
        match &file.extension {
            Some(ext) => if ext.as_str().is_ascii() {
                ascii_lowercase(ext.as_str())
            } else {
                to_lowercase(ext.as_str())
            },
            None => String::new(),
        }
    } else {
        let prefix = "unreadable: ";
        proof {
            reveal_strlit("unreadable: ");
        }
        let mut key = String::from_str(prefix);
        key.append(file.display.as_str());
        key
    }
}


/// The sum of the counts of a list of (key, count) pairs.
pub open spec fn total_count(pairs: Seq<(String, usize)>) -> nat
    decreases pairs.len(),
{
    if pairs.len() == 0 {
        0
    } else {
        total_count(pairs.drop_last()) + pairs.last().1 as nat
    }
}

/// `pairs` lists exactly the keys that `counts` holds, each once, with its
/// count: no key twice, no key with a count of 0, and the counts sum to the
/// number of files counted.
pub open spec fn lists_counts(pairs: Seq<(String, usize)>, counts: Multiset<Seq<char>>) -> bool {
    &&& forall|i: int, j: int|
        0 <= i < j < pairs.len() ==> #[trigger] pairs[i].0@ != #[trigger] pairs[j].0@
    &&& forall|i: int|
        0 <= i < pairs.len() ==> #[trigger] pairs[i].1 == counts.count(pairs[i].0@)
            && pairs[i].1 > 0
    &&& forall|key: Seq<char>|
        #[trigger] counts.count(key) > 0 ==> exists|i: int|
            0 <= i < pairs.len() && #[trigger] pairs[i].0@ == key
    &&& total_count(pairs) == counts.len()
}

proof fn lemma_total_count_push(pairs: Seq<(String, usize)>, pair: (String, usize))
    ensures
        total_count(pairs.push(pair)) == total_count(pairs) + pair.1,
{
    assert(pairs.push(pair).drop_last() =~= pairs);
}

proof fn lemma_total_count_bump(pairs: Seq<(String, usize)>, i: int, pair: (String, usize))
    requires
        0 <= i < pairs.len(),
        pair.1 == pairs[i].1 + 1,
    ensures
        total_count(pairs.update(i, pair)) == total_count(pairs) + 1,
    decreases pairs.len(),
{
    let updated = pairs.update(i, pair);
    if i == pairs.len() - 1 {
        assert(updated.drop_last() =~= pairs.drop_last());
    } else {
        lemma_total_count_bump(pairs.drop_last(), i, pair);
        assert(updated.drop_last() =~= pairs.drop_last().update(i, pair));
    }
}

/// Every key that `counts` holds is listed in `before`; `after` keeps the keys
/// of `before` in their places and lists `key` at `at`. Then every key that
/// `counts` holds once `key` is added is listed in `after`.
proof fn lemma_keys_still_listed(
    before: Seq<(String, usize)>,
    after: Seq<(String, usize)>,
    counts: Multiset<Seq<char>>,
    key: Seq<char>,
    at: int,
)
    requires
        forall|q: Seq<char>|
            #[trigger] counts.count(q) > 0 ==> exists|j: int|
                0 <= j < before.len() && #[trigger] before[j].0@ == q,
        before.len() <= after.len(),
        forall|j: int| 0 <= j < before.len() && j != at ==> #[trigger] after[j].0@ == before[j].0@,
        0 <= at < after.len(),
        after[at].0@ == key,
        at < before.len() ==> before[at].0@ == key,
    ensures
        forall|q: Seq<char>|
            #[trigger] counts.insert(key).count(q) > 0 ==> exists|j: int|
                0 <= j < after.len() && #[trigger] after[j].0@ == q,
{
    assert forall|q: Seq<char>| #[trigger] counts.insert(key).count(q) > 0 implies exists|j: int|
        0 <= j < after.len() && #[trigger] after[j].0@ == q by {
        if q == key {
            assert(after[at].0@ == q);
        } else {
            assert(counts.count(q) > 0);
            let j = choose|j: int| 0 <= j < before.len() && #[trigger] before[j].0@ == q;
            if j == at {
                assert(after[at].0@ == q);
            } else {
                assert(after[j].0@ == q);
            }
        }
    }
}

/// Where `key` stands among the keys of `pairs`, if it does.
fn position_of(pairs: &Vec<(String, usize)>, key: &String) -> (pos: Option<usize>)
    ensures
        match pos {
            Some(i) => i < pairs.len() && pairs@[i as int].0@ == key@,
            None => forall|j: int| 0 <= j < pairs.len() ==> #[trigger] pairs@[j].0@ != key@,
        },
{
    let mut i: usize = 0;
    while i < pairs.len()
        invariant
            i <= pairs.len(),
            forall|j: int| 0 <= j < i ==> #[trigger] pairs@[j].0@ != key@,
        decreases pairs.len() - i,
    {
        if pairs[i].0 == *key {
            return Some(i);
        }
        i += 1;
    }
    None
}

/// Counts the files of a directory tree by the key of each file.
pub struct Scanner {
    /// Each key met so far with its count. A `Vec` of pairs, searched in
    /// order, so that `result` can hand out every pair with what it holds proved.
    extensions: Vec<(String, usize)>,
    counted: Ghost<Multiset<Seq<char>>>,
}

impl View for Scanner {
    type V = Multiset<Seq<char>>;

    /// The keys of the files counted so far, each as many times as files had it.
    closed spec fn view(&self) -> Multiset<Seq<char>> {
        self.counted@
    }
}

impl Scanner {
    #[verifier::type_invariant]
    spec fn well_formed(self) -> bool {
        lists_counts(self.extensions@, self.counted@)
    }

    /// A scanner that has counted nothing.
    pub fn new() -> (scanner: Self)
        ensures
            scanner@ == Multiset::<Seq<char>>::empty(),
    {
        Scanner { extensions: Vec::new(), counted: Ghost(Multiset::empty()) }
    }

    /// The number of files counted under `key`.
    pub fn count_of(&self, key: &String) -> (n: usize)
        ensures
            n == self@.count(key@),
    {
        proof {
            use_type_invariant(self);
        }
        match position_of(&self.extensions, key) {
            Some(i) => self.extensions[i].1,
            None => {
                proof {
                    if self@.count(key@) > 0 {
                        let j = choose|j: int|
                            0 <= j < self.extensions@.len() && #[trigger] self.extensions@[j].0@
                                == key@;
                        assert(self.extensions@[j].0@ != key@);
                    }
                }
                0
            },
        }
    }

    /// Counts one more file under `key`.
    pub fn count_key(&mut self, key: String)
        requires
            old(self)@.count(key@) < usize::MAX,
        ensures
            final(self)@ == old(self)@.insert(key@),
    {
        let mut current = Scanner::new();
        std::mem::swap(&mut current, self);
        proof {
            use_type_invariant(&current);
        }
        let Scanner { mut extensions, counted } = current;
        let ghost old_pairs = extensions@;
        let ghost k = key@;
        match position_of(&extensions, &key) {
            Some(i) => {
                let n = extensions[i].1;
                extensions.set(i, (key, n + 1));
                proof {
                    lemma_total_count_bump(old_pairs, i as int, (key, (n + 1) as usize));
                    lemma_keys_still_listed(old_pairs, extensions@, counted@, k, i as int);
                }
            },
            None => {
                proof {
                    if counted@.count(k) > 0 {
                        let j = choose|j: int|
                            0 <= j < old_pairs.len() && #[trigger] old_pairs[j].0@ == k;
                        assert(old_pairs[j].0@ != k);
                    }
                }
                extensions.push((key, 1));
                proof {
                    lemma_total_count_push(old_pairs, (key, 1usize));
                    lemma_keys_still_listed(
                        old_pairs,
                        extensions@,
                        counted@,
                        k,
                        old_pairs.len() as int,
                    );
                }
            },
        }
        *self = Scanner { extensions, counted: Ghost(counted@.insert(k)) };
    }

    /// Counts one more file under its key.
    fn add_file(&mut self, file: &FileEntry)
        requires
            old(self)@.count(file_key(*file)) < usize::MAX,
        ensures
            final(self)@ == old(self)@.insert(file_key(*file)),
    {
        self.count_key(extension_key(file));
    }

    /// Counts an entry as `visit` does, unless it is a file whose key has
    /// already been counted `usize::MAX` times: then `None`, with nothing changed.
    pub fn try_visit(&mut self, entry: &Entry) -> (step: Option<Step>)
        ensures
            match entry {
                Entry::File(file) => if old(self)@.count(file_key(*file)) < usize::MAX {
                    step == Some(Step::Counted) && final(self)@ == old(self)@.insert(
                        file_key(*file),
                    )
                } else {
                    step is None && final(self)@ == old(self)@
                },
                Entry::Directory => step == Some(Step::Descend) && final(self)@ == old(self)@,
                Entry::Other => step == Some(Step::Skipped) && final(self)@ == old(self)@,
            },
    {
        if let Entry::File(file) = entry {
            if self.count_of(&extension_key(file)) == usize::MAX {
                return None;
            }
        }
        Some(self.visit(entry))
    }

    /// Decides what the scan does with one entry of a directory: descend into a
    /// directory, count a regular file under its key, skip anything else.
    pub fn visit(&mut self, entry: &Entry) -> (step: Step)
        requires
            entry matches Entry::File(file) ==> old(self)@.count(file_key(*file)) < usize::MAX,
        ensures
            match entry {
                Entry::Directory => step == Step::Descend && final(self)@ == old(self)@,
                Entry::File(file) => step == Step::Counted && final(self)@ == old(self)@.insert(
                    file_key(*file),
                ),
                Entry::Other => step == Step::Skipped && final(self)@ == old(self)@,
            },
    {
        match entry {
            Entry::Directory => Step::Descend,
            Entry::File(file) => {
                self.add_file(file);
                Step::Counted
            },
            Entry::Other => Step::Skipped,
        }
    }

    /// The (key, count) pairs of what was counted.
    fn sort_result(self) -> (pairs: Vec<(String, usize)>)
        ensures
            lists_counts(pairs@, self@),
    {
        proof {
            use_type_invariant(&self);
        }
        let Scanner { extensions, counted: _ } = self;
        extensions
    }

    /// Every key counted, once, with the number of files that had it, in no
    /// promised order.
    pub fn result(self) -> (pairs: Vec<(String, usize)>)
        ensures
            lists_counts(pairs@, self@),
    {
        self.sort_result()
    }
}

/// Counting a file adds one to the number of files counted and one to the
/// count of the file's key, and leaves the count of every other key as it was.
pub proof fn law_file_counted_once(counts: Multiset<Seq<char>>, file: FileEntry, other: Seq<char>)
    requires
        other != file_key(file),
    ensures
        counts.insert(file_key(file)).len() == counts.len() + 1,
        counts.insert(file_key(file)).count(file_key(file)) == counts.count(file_key(file)) + 1,
        counts.insert(file_key(file)).count(other) == counts.count(other),
        counts.insert(file_key(file)).dom() == counts.dom().insert(file_key(file)),
{
    assert(counts.insert(file_key(file)).dom() =~= counts.dom().insert(file_key(file)));
}

/// The counts do not depend on the order in which the scan meets two files.
pub proof fn law_order_irrelevant(counts: Multiset<Seq<char>>, first: FileEntry, second: FileEntry)
    ensures
        counts.insert(file_key(first)).insert(file_key(second)) == counts.insert(
            file_key(second),
        ).insert(file_key(first)),
{
    let a = counts.insert(file_key(first)).insert(file_key(second));
    let b = counts.insert(file_key(second)).insert(file_key(first));
    assert(a =~= b);
}

/// Two lists that both list the same counts hold the same pairs, up to order:
/// each key of one stands in the other with the same count.
pub proof fn law_listing_is_unique(
    pairs: Seq<(String, usize)>,
    others: Seq<(String, usize)>,
    counts: Multiset<Seq<char>>,
    i: int,
)
    requires
        lists_counts(pairs, counts),
        lists_counts(others, counts),
        0 <= i < pairs.len(),
    ensures
        exists|j: int|
            0 <= j < others.len() && #[trigger] others[j].0@ == pairs[i].0@ && others[j].1
                == pairs[i].1,
{
    assert(pairs[i].1 == counts.count(pairs[i].0@) && pairs[i].1 > 0);
    let j = choose|j: int| 0 <= j < others.len() && #[trigger] others[j].0@ == pairs[i].0@;
    assert(others[j].1 == counts.count(others[j].0@));
}

/// The counts after visiting `entries` one by one, starting from `counts`, as
/// `Scanner::visit` changes them.
pub open spec fn after_visits(counts: Multiset<Seq<char>>, entries: Seq<Entry>) -> Multiset<
    Seq<char>,
>
    decreases entries.len(),
{
    if entries.len() == 0 {
        counts
    } else {
        let before = after_visits(counts, entries.drop_last());
        match entries.last() {
            Entry::File(file) => before.insert(file_key(file)),
            _ => before,
        }
    }
}

/// The keys of the regular files among `entries`, each as often as it occurs.
pub open spec fn file_keys(entries: Seq<Entry>) -> Multiset<Seq<char>> {
    after_visits(Multiset::empty(), entries)
}

proof fn lemma_after_visits_adds(counts: Multiset<Seq<char>>, entries: Seq<Entry>)
    ensures
        after_visits(counts, entries) == counts.add(file_keys(entries)),
    decreases entries.len(),
{
    if entries.len() == 0 {
        assert(counts.add(file_keys(entries)) =~= counts);
    } else {
        lemma_after_visits_adds(counts, entries.drop_last());
        lemma_after_visits_adds(Multiset::empty(), entries.drop_last());
        let rest = file_keys(entries.drop_last());
        match entries.last() {
            Entry::File(file) => {
                assert(counts.add(rest).insert(file_key(file)) =~= counts.add(
                    rest.insert(file_key(file)),
                ));
            },
            _ => {},
        }
    }
}

/// Two scans add their counts up: scanning `first` and then `second` leaves
/// the same counts as scanning `second` and then `first`, and each key gains
/// exactly the number of files that the two scans met under it. So scanning
/// the same entries twice counts each of their files twice.
pub proof fn law_scans_add_up(counts: Multiset<Seq<char>>, first: Seq<Entry>, second: Seq<Entry>, key: Seq<char>)
    ensures
        after_visits(after_visits(counts, first), second) == after_visits(
            after_visits(counts, second),
            first,
        ),
        after_visits(after_visits(counts, first), second).count(key) == counts.count(key)
            + file_keys(first).count(key) + file_keys(second).count(key),
        after_visits(after_visits(counts, first), first).count(key) == counts.count(key) + 2
            * file_keys(first).count(key),
{
    lemma_after_visits_adds(counts, first);
    lemma_after_visits_adds(counts, second);
    lemma_after_visits_adds(after_visits(counts, first), second);
    lemma_after_visits_adds(after_visits(counts, second), first);
    lemma_after_visits_adds(after_visits(counts, first), first);
    assert(after_visits(after_visits(counts, first), second) =~= after_visits(
        after_visits(counts, second),
        first,
    ));
}

/// Visiting one more entry after a run of visits is one step of `after_visits`:
/// the counts that `Scanner::visit` leaves after each entry in turn are those
/// that `after_visits` gives.
pub proof fn law_visit_extends_run(counts: Multiset<Seq<char>>, entries: Seq<Entry>, entry: Entry)
    ensures
        after_visits(counts, entries.push(entry)) == match entry {
            Entry::File(file) => after_visits(counts, entries).insert(file_key(file)),
            _ => after_visits(counts, entries),
        },
{
    assert(entries.push(entry).drop_last() =~= entries);
}

/// The key of a readable file is its extension lower-cased, whatever the
/// extension's length: for an ASCII extension, char by char, each capital `A`
/// to `Z` becomes its small letter and every other char stays; any other
/// extension is lower-cased as `str::to_lowercase` does it. A readable file
/// without an extension counts under the empty key.
pub proof fn law_readable_key(file: FileEntry)
    requires
        file.readable,
    ensures
        file.extension matches Some(ext) ==> {
            let key = file_key(file);
            &&& is_ascii_chars(ext@) ==> {
                &&& key.len() == ext@.len()
                &&& forall|i: int|
                    0 <= i < ext@.len() ==> #[trigger] key[i] == if 'A' <= ext@[i] && ext@[i] <= 'Z' {
                        ((ext@[i] as int) + 32) as char
                    } else {
                        ext@[i]
                    }
            }
            &&& !is_ascii_chars(ext@) ==> key == lowercased(ext@)
        },
        file.extension is None ==> file_key(file).len() == 0,
{
}

/// Two readable files whose ASCII extensions differ only in the case of their
/// letters are counted under one key.
pub proof fn law_case_blind(first: FileEntry, second: FileEntry, a: String, b: String)
    requires
        first.readable,
        second.readable,
        first.extension == Some(a),
        second.extension == Some(b),
        a@.len() == b@.len(),
        is_ascii_chars(a@),
        is_ascii_chars(b@),
        forall|i: int|
            0 <= i < a@.len() ==> {
                ||| #[trigger] a@[i] == b@[i]
                ||| 'A' <= a@[i] <= 'Z' && (a@[i] as int) + 32 == b@[i] as int
                ||| 'A' <= b@[i] <= 'Z' && (b@[i] as int) + 32 == a@[i] as int
            },
    ensures
        file_key(first) == file_key(second),
{
    law_readable_key(first);
    law_readable_key(second);
    let ka = file_key(first);
    let kb = file_key(second);
    assert forall|i: int| 0 <= i < ka.len() implies ka[i] == kb[i] by {
        assert(ka[i] == (if 'A' <= a@[i] && a@[i] <= 'Z' { ((a@[i] as int) + 32) as char } else { a@[i] }));
        assert(kb[i] == (if 'A' <= b@[i] && b@[i] <= 'Z' { ((b@[i] as int) + 32) as char } else { b@[i] }));
        assert(a@[i] == b@[i] || ('A' <= a@[i] <= 'Z' && (a@[i] as int) + 32 == b@[i] as int) || (
        'A' <= b@[i] <= 'Z' && (b@[i] as int) + 32 == a@[i] as int));
    }
    assert(ka =~= kb);
}

/// The key of a file that could not be read is `unreadable: ` followed by the
/// whole of its path text.
pub proof fn law_unreadable_key(file: FileEntry)
    requires
        !file.readable,
    ensures
        file_key(file).len() == 12 + file.display@.len(),
        file_key(file).take(12) == seq!['u', 'n', 'r', 'e', 'a', 'd', 'a', 'b', 'l', 'e', ':', ' '],
        file_key(file).skip(12) == file.display@,
{
    assert(file_key(file).take(12) =~= seq![
        'u',
        'n',
        'r',
        'e',
        'a',
        'd',
        'a',
        'b',
        'l',
        'e',
        ':',
        ' ',
    ]);
    assert(file_key(file).skip(12) =~= file.display@);
}

} // verus!
