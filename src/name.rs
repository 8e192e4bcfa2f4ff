//! File names of the form `YYYY-MM-DD[_tag]*.ext` and the items parsed from them.
use vstd::prelude::*;
use vstd::string::StrSliceExecFns;
use vstd::string::StringExecFns;

verus! {

/// The regular expression of the naming convention, anchored at both ends.
pub const NAME_PATTERN: &'static str = "^[0-9]{4}-[0-9]{2}-[0-9]{2}(_[A-Za-z0-9-]+)*\\.[a-z]+$";

pub open spec fn is_digit(c: char) -> bool {
    '0' <= c && c <= '9'
}

pub open spec fn is_lower(c: char) -> bool {
    'a' <= c && c <= 'z'
}

/// A character allowed inside a tag segment: a letter, a digit or a hyphen.
pub open spec fn is_tag_char(c: char) -> bool {
    is_digit(c) || is_lower(c) || ('A' <= c && c <= 'Z') || c == '-'
}

/// Exactly ten characters shaped `DDDD-DD-DD`.
pub open spec fn is_date_block(s: Seq<char>) -> bool {
    &&& s.len() == 10
    &&& forall|i: int| 0 <= i < 10 && i != 4 && i != 7 ==> is_digit(#[trigger] s[i])
    &&& s[4] == '-'
    &&& s[7] == '-'
}

/// Zero or more segments, each a `_` followed by one or more tag characters.
pub open spec fn is_tag_block(m: Seq<char>) -> bool {
    m.len() == 0 || {
        &&& m[0] == '_'
        &&& m.last() != '_'
        &&& forall|i: int| 0 <= i < m.len() ==> is_tag_char(#[trigger] m[i]) || m[i] == '_'
        &&& forall|i: int| 0 <= i < m.len() - 1 && #[trigger] m[i] == '_' ==> m[i + 1] != '_'
    }
}

/// One or more lowercase letters.
pub open spec fn is_extension(e: Seq<char>) -> bool {
    e.len() > 0 && forall|i: int| 0 <= i < e.len() ==> is_lower(#[trigger] e[i])
}

/// The whole name is a date block, a tag block, a `.` and an extension.
pub open spec fn follows_convention(s: Seq<char>) -> bool {
    exists|k: int|
        10 <= k < s.len() && s[k] == '.' && is_date_block(s.take(10)) && #[trigger] is_tag_block(
            s.subrange(10, k),
        ) && is_extension(s.subrange(k + 1, s.len() as int))
}

/// Index of the last `.` in `s`, or -1 when there is none.
pub open spec fn last_dot(s: Seq<char>) -> int
    decreases s.len(),
{
    if s.len() == 0 {
        -1
    } else if s.last() == '.' {
        s.len() - 1
    } else {
        last_dot(s.drop_last())
    }
}

/// The name without its extension.
pub open spec fn stem_of(s: Seq<char>) -> Seq<char> {
    s.take(last_dot(s))
}

/// The pieces of `s` between occurrences of `sep`, as `str::split` yields them.
pub open spec fn split_on(s: Seq<char>, sep: char) -> Seq<Seq<char>>
    decreases s.len(),
{
    if s.len() == 0 {
        seq![Seq::<char>::empty()]
    } else {
        let rest = split_on(s.drop_last(), sep);
        if s.last() == sep {
            rest.push(Seq::<char>::empty())
        } else {
            rest.update(rest.len() - 1, rest.last().push(s.last()))
        }
    }
}

/// The tags of a file name in the order they are stored: the year (the first
/// four characters), then every `_`-separated piece of the stem after the first.
pub open spec fn tag_seq_of_name(s: Seq<char>) -> Seq<Seq<char>> {
    let stem = stem_of(s);
    seq![stem.take(4)] + split_on(stem, '_').drop_first()
}

/// The set of tags of a file name.
pub open spec fn tags_of_name(s: Seq<char>) -> Set<Seq<char>> {
    tag_seq_of_name(s).to_set()
}

/// The item that a file name stands for.
pub open spec fn item_of_name(s: Seq<char>) -> ItemV {
    ItemV { name: s, tags: tag_seq_of_name(s) }
}

/// A spec-level item: a file name and its tags, as stored.
pub struct ItemV {
    pub name: Seq<char>,
    pub tags: Seq<Seq<char>>,
}

impl ItemV {
    pub open spec fn tag_set(self) -> Set<Seq<char>> {
        self.tags.to_set()
    }
}

/// One file: its name and its tags.
#[derive(Debug, PartialEq, Eq)]
pub struct Element {
    pub name: String,
    pub tags: Vec<String>,
}

pub open spec fn views_of(v: Seq<String>) -> Seq<Seq<char>> {
    v.map_values(|t: String| t@)
}

impl View for Element {
    type V = ItemV;

    open spec fn view(&self) -> ItemV {
        ItemV { name: self.name@, tags: views_of(self.tags@) }
    }
}

/// The failures of a run.
#[derive(Debug, PartialEq, Eq)]
pub enum TagError {
    /// `Files/` is absent or is not a directory.
    MissingSourceDirectory,
    /// An entry of `Files/` does not follow the naming convention.
    InvalidFileName { name: String },
    /// Creating a folder or a link, or reading a directory, failed.
    FilesystemOperationFailure { message: String },
}

impl TagError {
    /// A human-readable description of the failure.
    pub fn message(&self) -> (r: String)
        ensures
            self matches TagError::MissingSourceDirectory ==> r@
                == "Must be launched in a dir with `Files` subdirectory"@,
            self matches TagError::InvalidFileName { name } ==> r@ == "File name "@ + name@
                + " is invalid must be in format YYYY-MM-DD[_Tag]+.ext, exiting"@,
            self matches TagError::FilesystemOperationFailure { message } ==> r@ == message@,
    {
        match self {
            TagError::MissingSourceDirectory => String::from_str(
                "Must be launched in a dir with `Files` subdirectory",
            ),
            TagError::InvalidFileName { name } => {
                let mut m = String::from_str("File name ");
                m.append(name.as_str());
                m.append(" is invalid must be in format YYYY-MM-DD[_Tag]+.ext, exiting");
                m
            },
            TagError::FilesystemOperationFailure { message } => message.clone(),
        }
    }
}

/// Relies on regex::Regex::new, which compiles `NAME_PATTERN` (a valid
/// pattern, so `unwrap` does not panic), and on Regex::is_match, which then
/// reports whether the whole name, from `^` to `$`, is four ASCII digits, `-`,
/// two digits, `-`, two digits, any number of `_` each followed by one or more
/// of `[A-Za-z0-9-]`, a `.` and one or more of `[a-z]`.
#[verifier::external_body]
fn regex_is_match(pattern: &str, name: &str) -> (r: bool)
    requires
        pattern@ == NAME_PATTERN@,
    ensures
        r == follows_convention(name@),
{
    regex::Regex::new(pattern).unwrap().is_match(name)
}

proof fn lemma_split_nonempty(s: Seq<char>, sep: char)
    ensures
        split_on(s, sep).len() >= 1,
    decreases s.len(),
{
    if s.len() > 0 {
        lemma_split_nonempty(s.drop_last(), sep);
    }
}

proof fn lemma_last_dot_range(s: Seq<char>)
    ensures
        -1 <= last_dot(s) < s.len(),
        last_dot(s) >= 0 ==> s[last_dot(s)] == '.',
        forall|j: int| last_dot(s) < j < s.len() ==> s[j] != '.',
    decreases s.len(),
{
    if s.len() > 0 {
        lemma_last_dot_range(s.drop_last());
        assert forall|j: int| last_dot(s) < j < s.len() implies s[j] != '.' by {
            if j < s.len() - 1 {
                assert(s.drop_last()[j] == s[j]);
            }
        }
    }
}

/// In a name that follows the convention the last `.` comes after the date.
proof fn lemma_convention_dot(s: Seq<char>)
    requires
        follows_convention(s),
    ensures
        10 <= last_dot(s) < s.len(),
{
    let k = choose|k: int|
        10 <= k < s.len() && s[k] == '.' && is_date_block(s.take(10)) && #[trigger] is_tag_block(
            s.subrange(10, k),
        ) && is_extension(s.subrange(k + 1, s.len() as int));
    lemma_last_dot_range(s);
    if last_dot(s) < k {
        assert(s[k] == '.');
    }
    if last_dot(s) > k {
        let e = s.subrange(k + 1, s.len() as int);
        assert(is_lower(e[last_dot(s) - k - 1]));
    }
}

/// The tags of a name that follows the convention are its year, a block of four
/// digits, together with exactly the `_`-separated segments after the date.
pub proof fn lemma_parse_tags(s: Seq<char>)
    requires
        follows_convention(s),
    ensures
        tags_of_name(s).contains(s.take(4)),
        forall|i: int| 0 <= i < 4 ==> is_digit(#[trigger] s.take(4)[i]),
        tags_of_name(s) == split_on(stem_of(s), '_').drop_first().to_set().insert(s.take(4)),
{
    lemma_convention_dot(s);
    let stem = stem_of(s);
    let all = split_on(stem, '_');
    let ts = tag_seq_of_name(s);
    let k = choose|k: int|
        10 <= k < s.len() && s[k] == '.' && is_date_block(s.take(10)) && #[trigger] is_tag_block(
            s.subrange(10, k),
        ) && is_extension(s.subrange(k + 1, s.len() as int));
    assert(stem.take(4) =~= s.take(4));
    assert forall|i: int| 0 <= i < 4 implies is_digit(#[trigger] s.take(4)[i]) by {
        assert(s.take(4)[i] == s.take(10)[i]);
    }
    assert(ts[0] == s.take(4));
    assert(ts.to_set() =~= all.drop_first().to_set().insert(s.take(4))) by {
        assert forall|t: Seq<char>| ts.to_set().contains(t) implies all.drop_first().to_set().insert(
            s.take(4),
        ).contains(t) by {
            let q = choose|q: int| 0 <= q < ts.len() && ts[q] == t;
            if q > 0 {
                assert(all.drop_first()[q - 1] == t);
            }
        }
        assert forall|t: Seq<char>| all.drop_first().to_set().insert(s.take(4)).contains(
            t,
        ) implies ts.to_set().contains(t) by {
            if t != s.take(4) {
                let q = choose|q: int| 0 <= q < all.drop_first().len() && all.drop_first()[q] == t;
                assert(ts[q + 1] == t);
            }
        }
    }
}

impl Element {
    /// Parses a file name into an item; fails on any name off the convention.
    pub fn parse(name: &str) -> (r: Result<Element, TagError>)
        ensures
            r is Ok <==> follows_convention(name@),
            r matches Ok(e) ==> e@ == item_of_name(name@),
            r matches Err(err) ==> (err matches TagError::InvalidFileName { name: n } && n@
                == name@),
    {
        if !regex_is_match(NAME_PATTERN, name) {
            return Err(TagError::InvalidFileName { name: String::from_str(name) });
        }
        proof {
            lemma_convention_dot(name@);
        }
        let n = name.unicode_len();
        let mut has_dot = false;
        let mut last: usize = 0;
        let mut i: usize = 0;
        while i < n
            invariant
                n == name@.len(),
                i <= n,
                (if has_dot {
                    last as int
                } else {
                    -1
                }) == last_dot(name@.take(i as int)),
            decreases n - i,
        {
            let c = name.get_char(i);
            proof {
                assert(name@.take(i + 1).drop_last() =~= name@.take(i as int));
            }
            if c == '.' {
                has_dot = true;
                last = i;
            }
            i = i + 1;
        }
        assert(name@.take(n as int) =~= name@);
        let stem = name.substring_char(0, last);
        assert(stem@ == stem_of(name@));
        let year = String::from_str(stem.substring_char(0, 4));
        // pieces of the stem between underscores
        let mut pieces: Vec<String> = Vec::new();
        let mut start: usize = 0;
        let mut j: usize = 0;
        assert(views_of(pieces@) =~= Seq::<Seq<char>>::empty());
        assert(stem@.take(0) =~= Seq::<char>::empty());
        assert(stem@.subrange(0, 0) =~= Seq::<char>::empty());
        assert(views_of(pieces@).push(stem@.subrange(0, 0)) =~= split_on(stem@.take(0), '_'));
        while j < last
            invariant
                stem@.len() == last,
                j <= last,
                start <= j,
                views_of(pieces@).push(stem@.subrange(start as int, j as int)) == split_on(
                    stem@.take(j as int),
                    '_',
                ),
            decreases last - j,
        {
            let c = stem.get_char(j);
            let ghost before = views_of(pieces@);
            let ghost prev = split_on(stem@.take(j as int), '_');
            proof {
                assert(stem@.take(j + 1).drop_last() =~= stem@.take(j as int));
                assert(stem@.take(j + 1).last() == c);
                lemma_split_nonempty(stem@.take(j as int), '_');
            }
            if c == '_' {
                assert(split_on(stem@.take(j + 1), '_') == prev.push(Seq::<char>::empty()));
                let piece = String::from_str(stem.substring_char(start, j));
                pieces.push(piece);
                assert(views_of(pieces@) =~= before.push(stem@.subrange(start as int, j as int)));
                start = j + 1;
                assert(stem@.subrange(start as int, (j + 1) as int) =~= Seq::<char>::empty());
                assert(views_of(pieces@).push(stem@.subrange(start as int, (j + 1) as int))
                    =~= split_on(stem@.take(j + 1), '_'));
            } else {
                assert(split_on(stem@.take(j + 1), '_') == prev.update(
                    prev.len() - 1,
                    prev.last().push(c),
                ));
                assert(stem@.subrange(start as int, j as int).push(c) =~= stem@.subrange(
                    start as int,
                    (j + 1) as int,
                ));
                assert(views_of(pieces@).push(stem@.subrange(start as int, (j + 1) as int))
                    =~= split_on(stem@.take(j + 1), '_'));
            }
            j = j + 1;
        }
        let ghost before = views_of(pieces@);
        pieces.push(String::from_str(stem.substring_char(start, last)));
        assert(stem@.take(last as int) =~= stem@);
        assert(views_of(pieces@) =~= before.push(stem@.subrange(start as int, last as int)));
        assert(views_of(pieces@) == split_on(stem@, '_'));
        // every piece after the first is a tag, and so is the year
        let ghost all = views_of(pieces@);
        let mut tags: Vec<String> = Vec::new();
        tags.push(year);
        let mut p: usize = 1;
        while p < pieces.len()
            invariant
                1 <= p <= pieces.len(),
                all == views_of(pieces@),
                views_of(tags@) == seq![stem@.take(4)] + all.subrange(1, p as int),
            decreases pieces.len() - p,
        {
            let ghost before = views_of(tags@);
            tags.push(pieces[p].clone());
            assert(all[p as int] == pieces@[p as int]@);
            assert(views_of(tags@) =~= before.push(all[p as int]));
            assert(views_of(tags@) =~= seq![stem@.take(4)] + all.subrange(1, p + 1));
            p = p + 1;
        }
        let e = Element { name: String::from_str(name), tags };
        assert(views_of(tags@) =~= seq![stem@.take(4)] + all.drop_first());
        Ok(e)
    }
}

} // verus!
