//! A download task: the name under which the file is saved, the size that
//! the server reports, and the walk over its blocks with the progress that
//! each received block adds.
use vstd::prelude::*;
use vstd::string::*;

use crate::block_range_iter::{block_len, chunks, describes, BlockRangeIter, Range};
use crate::text::{
    file_name, parse_u64, parse_u64_str, path_file_name, push_char, split, split_str, trim,
    trim_str, views,
};

verus! {

/// The size of the blocks that a task asks for, one request each.
pub const CHUNK_SIZE: u32 = 1024 * 1024 * 2;

// ----------------------------------------------------------------------------
// The outside URL parser
// ----------------------------------------------------------------------------

/// What `url::Url::parse` makes of `input`: the serialization of the parsed
/// URL, or `None` where it reports an error.
pub uninterp spec fn url_serialization(input: Seq<char>) -> Option<Seq<char>>;

/// Calls `url::Url::parse` and, on success, `Url::as_str`. Claimed: the
/// result is a function of the input alone, named `url_serialization`.
/// Nothing is said of what that serialization holds.
#[verifier::external_body]
fn parse_url(input: &str) -> (r: Option<String>)
    ensures
        match r {
            Some(s) => url_serialization(input@) == Some(s@),
            None => url_serialization(input@) is None,
        },
{
    match url::Url::parse(input) {
        Ok(u) => Some(u.as_str().to_string()),
        Err(_) => None,
    }
}

// ----------------------------------------------------------------------------
// The name of the saved file
// ----------------------------------------------------------------------------

/// A character that `HeaderValue::to_str` accepts: visible ASCII, or tab.
pub open spec fn is_header_char(c: char) -> bool {
    (' ' <= c && c <= '~') || c == '\t'
}

pub open spec fn is_header_text(s: Seq<char>) -> bool {
    forall|i: int| 0 <= i < s.len() ==> is_header_char(#[trigger] s[i])
}

pub open spec fn ascii_lower(c: char) -> char {
    if 'A' <= c && c <= 'Z' {
        (c as int + 32) as char
    } else {
        c
    }
}

/// `s`, put in lower case, is `lower`.
pub open spec fn eq_lowercase(s: Seq<char>, lower: Seq<char>) -> bool {
    &&& s.len() == lower.len()
    &&& forall|i: int| 0 <= i < s.len() ==> ascii_lower(#[trigger] s[i]) == lower[i]
}

pub open spec fn starts_with(s: Seq<char>, prefix: Seq<char>) -> bool {
    s.len() >= prefix.len() && s.take(prefix.len() as int) == prefix
}

/// The disposition types that may carry a file name.
pub open spec fn is_disposition_type(t: Seq<char>) -> bool {
    eq_lowercase(t, "inline"@) || eq_lowercase(t, "attachment"@)
}

/// A parameter of the header that gives the file name.
pub open spec fn is_filename_param(p: Seq<char>) -> bool {
    starts_with(trim(p), "filename="@)
}

/// How many of `parts` give a file name.
pub open spec fn count_params(parts: Seq<Seq<char>>) -> nat
    decreases parts.len(),
{
    if parts.len() == 0 {
        0
    } else {
        count_params(parts.drop_last()) + if is_filename_param(parts.last()) {
            1nat
        } else {
            0nat
        }
    }
}

/// The last of `parts` that gives a file name.
pub open spec fn last_param(parts: Seq<Seq<char>>) -> Seq<char>
    decreases parts.len(),
{
    if parts.len() == 0 {
        Seq::empty()
    } else if is_filename_param(parts.last()) {
        parts.last()
    } else {
        last_param(parts.drop_last())
    }
}

/// The file name that a `Content-Disposition` value `v` gives: the value of
/// its single `filename=` parameter, cut to its last path component, where the
/// disposition type is `inline` or `attachment` and at least one parameter
/// follows it; the empty name otherwise.
pub open spec fn header_filename(v: Seq<char>) -> Seq<char> {
    let parts = split(v, ';');
    if parts.len() > 1 && is_disposition_type(trim(parts[0])) && count_params(parts) == 1 {
        match file_name(trim(split(last_param(parts), '=')[1])) {
            Some(f) => f,
            None => Seq::empty(),
        }
    } else {
        Seq::empty()
    }
}

/// The name under which a download is saved: from the headers where the
/// response has any, `downfast.b` where it has none, and from the URL where
/// that gives the empty name and the URL is not empty. `None` where the URL
/// would be asked for a name and has no final component.
pub open spec fn chosen_filename(url: Seq<char>, has_headers: bool, disposition: Option<
    Seq<char>,
>) -> Option<Seq<char>> {
    let first = if has_headers {
        match disposition {
            Some(v) => header_filename(v),
            None => Seq::empty(),
        }
    } else {
        "downfast.b"@
    };
    if first.len() == 0 && url.len() > 0 {
        file_name(url)
    } else {
        Some(first)
    }
}

/// `dir` and `name` joined as `PathBuf::push` joins them on Unix: an absolute
/// `name` replaces `dir`, and a slash goes between the two where `dir` is not
/// empty and does not end in one.
pub open spec fn join_path(dir: Seq<char>, name: Seq<char>) -> Seq<char> {
    if name.len() > 0 && name[0] == '/' {
        name
    } else if dir.len() > 0 && dir.last() != '/' {
        dir + seq!['/'] + name
    } else {
        dir + name
    }
}

/// Where a download is saved: in `out` where it is a directory, else at `out`
/// itself.
pub open spec fn output_path_of(out: Seq<char>, out_is_dir: bool, filename: Seq<char>) -> Seq<
    char,
> {
    if out_is_dir {
        join_path(out, filename)
    } else {
        join_path(Seq::empty(), out)
    }
}

/// The size that a `Content-Range` value such as `bytes 0-0/22766251` gives:
/// the number after its first slash. No value gives 0; a value without a slash,
/// or whose size is not a number, gives `None`.
pub open spec fn range_total(v: Option<Seq<char>>) -> Option<u64> {
    match v {
        None => Some(0),
        Some(s) => {
            let parts = split(s, '/');
            if parts.len() < 2 {
                None
            } else {
                parse_u64(parts[1])
            }
        },
    }
}

fn ascii_lower_char(c: char) -> (r: char)
    ensures
        r == ascii_lower(c),
{
    if 'A' <= c && c <= 'Z' {
        ((c as u8) + 32) as char
    } else {
        c
    }
}

fn eq_lowercase_str(s: &str, lower: &str) -> (r: bool)
    ensures
        r == eq_lowercase(s@, lower@),
{
    let n = s.unicode_len();
    if n != lower.unicode_len() {
        return false;
    }
    let mut i: usize = 0;
    while i < n
        invariant
            n == s@.len(),
            n == lower@.len(),
            i <= n,
            forall|k: int| 0 <= k < i ==> ascii_lower(#[trigger] s@[k]) == lower@[k],
        decreases n - i,
    {
        if ascii_lower_char(s.get_char(i)) != lower.get_char(i) {
            return false;
        }
        i = i + 1;
    }
    true
}

fn starts_with_str(s: &str, prefix: &str) -> (r: bool)
    ensures
        r == starts_with(s@, prefix@),
{
    let n = prefix.unicode_len();
    if s.unicode_len() < n {
        return false;
    }
    let mut i: usize = 0;
    while i < n
        invariant
            n == prefix@.len(),
            n <= s@.len(),
            i <= n,
            forall|k: int| 0 <= k < i ==> s@[k] == prefix@[k],
        decreases n - i,
    {
        if s.get_char(i) != prefix.get_char(i) {
            assert(s@.take(n as int)[i as int] != prefix@[i as int]);
            return false;
        }
        i = i + 1;
    }
    assert(s@.take(n as int) =~= prefix@);
    true
}

fn is_filename_param_str(p: &str) -> (r: bool)
    ensures
        r == is_filename_param(p@),
{
    starts_with_str(trim_str(p), "filename=")
}

proof fn lemma_param_has_equals(p: Seq<char>)
    requires
        is_filename_param(p),
    ensures
        split(p, '=').len() >= 2,
{
    reveal_strlit("filename=");
    let t = trim(p);
    assert(t.take(9)[8] == '=');
    assert(t.contains('='));
    crate::text::lemma_trim_within(p, '=');
    crate::text::lemma_split_contains(p, '=');
}

// ----------------------------------------------------------------------------
// The task
// ----------------------------------------------------------------------------

/// A download of the bytes from `lower` up to, not including, `upper`.
pub struct Task {
    lower: u64,
    upper: u64,
}

impl View for Task {
    type V = (u64, u64);

    closed spec fn view(&self) -> (u64, u64) {
        (self.lower, self.upper)
    }
}

impl Task {
    /// A task for a file of `upper` bytes, from its first byte.
    pub fn new(upper: u64) -> (t: Task)
        ensures
            t@ == (0u64, upper),
    {
        Task { lower: 0, upper }
    }

    pub fn lower(&self) -> (r: u64)
        ensures
            r == self@.0,
    {
        self.lower
    }

    pub fn upper(&self) -> (r: u64)
        ensures
            r == self@.1,
    {
        self.upper
    }

    /// The URL as the parser serializes it; `None` where it does not parse.
    pub fn resolve_url(url: &str) -> (r: Option<String>)
        ensures
            match r {
                Some(s) => url_serialization(url@) == Some(s@),
                None => url_serialization(url@) is None,
            },
    {
        parse_url(url)
    }

    /// The file name that the `Content-Disposition` value `disposition`
    /// gives, or the empty name; `None` stands for a response without that
    /// header.
    pub fn filename_from_headers<'a>(disposition: Option<&'a str>) -> (r: &'a str)
        requires
            disposition matches Some(v) ==> is_header_text(v@),
        ensures
            r@ == match disposition {
                Some(v) => header_filename(v@),
                None => Seq::empty(),
            },
    {
        proof {
            reveal_strlit("");
        }
        let v = match disposition {
            None => return "",
            Some(v) => v,
        };
        let parts = split_str(v, ';');
        if parts.len() > 1 && (eq_lowercase_str(trim_str(parts[0]), "inline") || eq_lowercase_str(
            trim_str(parts[0]),
            "attachment",
        )) {
            let mut count: usize = 0;
            let mut found: &'a str = "";
            let mut k: usize = 0;
            while k < parts.len()
                invariant
                    k <= parts.len(),
                    count == count_params(views(parts@).take(k as int)),
                    count <= k,
                    count > 0 ==> found@ == last_param(views(parts@).take(k as int))
                        && is_filename_param(found@),
                decreases parts.len() - k,
            {
                let ghost before = views(parts@).take(k as int);
                assert(views(parts@).take(k + 1).drop_last() =~= before);
                assert(views(parts@).take(k + 1).last() == parts@[k as int]@);
                if is_filename_param_str(parts[k]) {
                    count = count + 1;
                    found = parts[k];
                }
                k = k + 1;
            }
            assert(views(parts@).take(parts.len() as int) =~= views(parts@));
            if count == 1 {
                proof {
                    lemma_param_has_equals(found@);
                }
                let pieces = split_str(found, '=');
                let value = trim_str(pieces[1]);
                match path_file_name(value) {
                    Some(f) => f,
                    None => "",
                }
            } else {
                ""
            }
        } else {
            ""
        }
    }

    /// The final component of the URL `url`, read as a path.
    pub fn filename_from_url<'a>(url: &'a str) -> (r: &'a str)
        requires
            file_name(url@) is Some,
        ensures
            Some(r@) == file_name(url@),
    {
        match path_file_name(url) {
            Some(f) => f,
            None => url,
        }
    }

    /// The name under which the download of `url` is saved, given whether the
    /// response has headers and its `Content-Disposition` value; `None` where
    /// the name would have to come from a URL that has no final component.
    pub fn get_filename<'b>(url: &'b str, has_headers: bool, disposition: Option<&'b str>) -> (r:
        Option<&'b str>)
        requires
            disposition matches Some(v) ==> is_header_text(v@),
        ensures
            match r {
                Some(f) => chosen_filename(url@, has_headers, match disposition {
                    Some(v) => Some(v@),
                    None => None,
                }) == Some(f@),
                None => chosen_filename(url@, has_headers, match disposition {
                    Some(v) => Some(v@),
                    None => None,
                }) is None,
            },
    {
        let mut filename: &'b str = "downfast.b";
        if has_headers {
            filename = Task::filename_from_headers(disposition);
        }
        if filename.unicode_len() == 0 && url.unicode_len() != 0 {
            match path_file_name(url) {
                Some(_) => Some(Task::filename_from_url(url)),
                None => None,
            }
        } else {
            Some(filename)
        }
    }

    /// The path at which the download is saved, given the output argument
    /// `out`, whether it names a directory, and the file name.
    pub fn output_path(out: &str, out_is_dir: bool, filename: &str) -> (r: String)
        ensures
            r@ == output_path_of(out@, out_is_dir, filename@),
    {
        let (dir, name) = if out_is_dir {
            (out, filename)
        } else {
            proof {
                reveal_strlit("");
            }
            ("", out)
        };
        let mut path = String::new();
        if name.unicode_len() > 0 && name.get_char(0) == '/' {
            path.append(name);
            return path;
        }
        let n = dir.unicode_len();
        path.append(dir);
        if n > 0 && dir.get_char(n - 1) != '/' {
            push_char(&mut path, '/');
        }
        path.append(name);
        path
    }

    /// The size that a `Content-Range` value gives, `None` standing for a
    /// failed request, a missing header, or a value `HeaderValue::to_str`
    /// refuses; the result is `None` where the value has no slash or no size.
    pub fn total_from_content_range(value: Option<&str>) -> (r: Option<u64>)
        ensures
            r == range_total(
                match value {
                    Some(v) => Some(v@),
                    None => None,
                },
            ),
    {
        match value {
            None => Some(0),
            Some(v) => {
                let parts = split_str(v, '/');
                if parts.len() < 2 {
                    None
                } else {
                    parse_u64_str(parts[1])
                }
            },
        }
    }

    /// Cuts the bytes from `lower` to `upper` into blocks, ready to be fetched one by one.
    pub fn block_down(&self) -> (t: Transfer)
        requires
            self@.1 > 0,
        ensures
            t.wf(),
            t.remaining() == chunks(self@.0 as int, self@.1 - 1, CHUNK_SIZE as int),
            t.downloaded() == 0,
            t.size() == self@.1,
    {
        let ranges = BlockRangeIter::new(self.lower, self.upper - 1, CHUNK_SIZE).unwrap();
        Transfer { ranges, downloaded: 0, fsize: self.upper }
    }
}

// ----------------------------------------------------------------------------
// The walk over the blocks
// ----------------------------------------------------------------------------

/// The blocks still to ask for, and the progress that the received ones add
/// up to.
pub struct Transfer {
    ranges: BlockRangeIter,
    downloaded: u64,
    fsize: u64,
}

/// The progress after `k` more received blocks, from `d`: each adds one block
/// size, up to the size of the file.
pub open spec fn progress_after(d: int, k: nat, fsize: int) -> int
    decreases k,
{
    if k == 0 {
        d
    } else {
        let next = if d + CHUNK_SIZE < fsize {
            d + CHUNK_SIZE
        } else {
            fsize
        };
        progress_after(next, (k - 1) as nat, fsize)
    }
}

impl Transfer {
    /// The blocks end before the last `u64`, so that every one can be cut.
    pub closed spec fn wf(&self) -> bool {
        &&& self.ranges@.1 < u64::MAX
        &&& self.ranges@.2 == CHUNK_SIZE
    }

    /// The blocks still to ask for.
    pub closed spec fn remaining(&self) -> Seq<(int, int)> {
        self.ranges.remaining()
    }

    /// The progress reported so far.
    pub closed spec fn downloaded(&self) -> u64 {
        self.downloaded
    }

    /// The size of the file.
    pub closed spec fn size(&self) -> u64 {
        self.fsize
    }

    /// The progress reported so far.
    pub fn progress(&self) -> (r: u64)
        ensures
            r == self.downloaded(),
    {
        self.downloaded
    }

    /// The next block to ask for, or `None` once all have been asked for.
    pub fn next_range(&mut self) -> (r: Option<Range>)
        requires
            old(self).wf(),
        ensures
            final(self).wf(),
            final(self).downloaded() == old(self).downloaded(),
            final(self).size() == old(self).size(),
            old(self).remaining().len() == 0 ==> r is None && final(self).remaining()
                == old(self).remaining(),
            old(self).remaining().len() > 0 ==> (r matches Some(range) && describes(
                range,
                old(self).remaining()[0],
            ) && final(self).remaining() == old(self).remaining().drop_first()),
    {
        self.ranges.next()
    }

    /// Records one received block; returns the new progress, one block size
    /// more, but no more than the size of the file.
    pub fn record_chunk(&mut self) -> (r: u64)
        requires
            old(self).downloaded() + CHUNK_SIZE <= u64::MAX,
        ensures
            final(self).wf() == old(self).wf(),
            r == final(self).downloaded(),
            r == progress_after(old(self).downloaded() as int, 1, old(self).size() as int),
            final(self).size() == old(self).size(),
            final(self).remaining() == old(self).remaining(),
    {
        let sum = self.downloaded + CHUNK_SIZE as u64;
        let new_len = if sum < self.fsize {
            sum
        } else {
            self.fsize
        };
        self.downloaded = new_len;
        proof {
            reveal_with_fuel(progress_after, 2);
        }
        new_len
    }
}

/// Law: once every block of `[start, end]` has been received, one record
/// each, the progress counted from `start` is the end of the file.
pub proof fn lemma_progress_reaches_size(start: int, end: int)
    requires
        start <= end + 1,
    ensures
        progress_after(start, chunks(start, end, CHUNK_SIZE as int).len(), end + 1) == end + 1,
    decreases end + 1 - start,
{
    if start <= end {
        let next = start + block_len(start, end, CHUNK_SIZE as int);
        lemma_progress_reaches_size(next, end);
        assert(chunks(start, end, CHUNK_SIZE as int).len() == 1 + chunks(
            next,
            end,
            CHUNK_SIZE as int,
        ).len());
    }
}

// ----------------------------------------------------------------------------
// Laws of the file name and the size
// ----------------------------------------------------------------------------

proof fn lemma_no_params(parts: Seq<Seq<char>>)
    requires
        forall|j: int| 0 <= j < parts.len() ==> !is_filename_param(#[trigger] parts[j]),
    ensures
        count_params(parts) == 0,
    decreases parts.len(),
{
    if parts.len() > 0 {
        assert(!is_filename_param(parts[parts.len() - 1]));
        assert forall|j: int| 0 <= j < parts.drop_last().len() implies !is_filename_param(
            #[trigger] parts.drop_last()[j],
        ) by {
            assert(parts.drop_last()[j] == parts[j]);
        }
        lemma_no_params(parts.drop_last());
    }
}

proof fn lemma_single_param(parts: Seq<Seq<char>>, i: int)
    requires
        0 <= i < parts.len(),
        is_filename_param(parts[i]),
        forall|j: int| 0 <= j < parts.len() && j != i ==> !is_filename_param(#[trigger] parts[j]),
    ensures
        count_params(parts) == 1,
        last_param(parts) == parts[i],
    decreases parts.len(),
{
    let d = parts.drop_last();
    if i == parts.len() - 1 {
        assert forall|j: int| 0 <= j < d.len() implies !is_filename_param(#[trigger] d[j]) by {
            assert(d[j] == parts[j]);
        }
        lemma_no_params(d);
    } else {
        assert(!is_filename_param(parts[parts.len() - 1]));
        assert(d[i] == parts[i]);
        assert forall|j: int| 0 <= j < d.len() && j != i implies !is_filename_param(
            #[trigger] d[j],
        ) by {
            assert(d[j] == parts[j]);
        }
        lemma_single_param(d, i);
    }
}

/// Law: where the disposition type is `inline` or `attachment` and exactly
/// one parameter, at whatever place among the others, starts with
/// `filename=`, the name is the last path component of the trimmed text
/// after that parameter's first `=` (empty where that text has none).
pub proof fn lemma_header_filename_from_its_one_param(v: Seq<char>, i: int)
    requires
        split(v, ';').len() > 1,
        is_disposition_type(trim(split(v, ';')[0])),
        0 < i < split(v, ';').len(),
        starts_with(trim(split(v, ';')[i]), "filename="@),
        forall|j: int|
            0 <= j < split(v, ';').len() && j != i ==> !starts_with(
                trim(#[trigger] split(v, ';')[j]),
                "filename="@,
            ),
    ensures
        header_filename(v) == match file_name(trim(split(split(v, ';')[i], '=')[1])) {
            Some(f) => f,
            None => Seq::empty(),
        },
{
    let parts = split(v, ';');
    assert forall|j: int| 0 <= j < parts.len() && j != i implies !is_filename_param(
        #[trigger] parts[j],
    ) by {}
    lemma_single_param(parts, i);
}

/// Law: where the name taken from the headers is empty and the URL is not,
/// the name is the URL's last path component, whether or not a
/// `Content-Disposition` value was there.
pub proof fn lemma_empty_header_name_falls_back_to_url(url: Seq<char>, disposition: Option<
    Seq<char>,
>)
    requires
        url.len() > 0,
        match disposition {
            Some(v) => header_filename(v).len() == 0,
            None => true,
        },
    ensures
        chosen_filename(url, true, disposition) == file_name(url),
{
}

/// Law: for a URL that has a last path component, the chosen name is never
/// empty.
pub proof fn lemma_chosen_name_not_empty(url: Seq<char>, has_headers: bool, disposition: Option<
    Seq<char>,
>)
    requires
        file_name(url) is Some,
    ensures
        chosen_filename(url, has_headers, disposition) matches Some(f) && f.len() > 0,
{
    reveal_strlit("downfast.b");
    crate::text::lemma_file_name_is_one_component(url);
    if url.len() == 0 {
        assert(url =~= Seq::<char>::empty());
        assert(split(url, '/') =~= seq![Seq::<char>::empty()]);
        assert(split(url, '/').drop_last() =~= Seq::<Seq<char>>::empty());
        assert(split(url, '/').last().len() == 0);
        assert(crate::text::last_normal(split(url, '/').drop_last()) is None);
        assert(file_name(url) is None);
    }
    assert("downfast.b"@.len() == 10);
}

/// Law: into a directory that is not empty and does not end in a slash, a
/// relative name is put after one slash; into a directory that ends in a
/// slash, right after it; an absolute name stands alone; and where the output
/// is not a directory, the path is the output itself.
pub proof fn lemma_output_path_joins(out: Seq<char>, filename: Seq<char>)
    ensures
        out.len() > 0 && out.last() != '/' && !(filename.len() > 0 && filename[0] == '/')
            ==> output_path_of(out, true, filename) == out + seq!['/'] + filename,
        out.len() > 0 && out.last() == '/' && !(filename.len() > 0 && filename[0] == '/')
            ==> output_path_of(out, true, filename) == out + filename,
        filename.len() > 0 && filename[0] == '/' ==> output_path_of(out, true, filename)
            == filename,
        output_path_of(out, false, filename) == out,
{
    assert(Seq::<char>::empty() + out =~= out);
}

/// Law: a file name saved into a directory is the last component of the
/// saved path.
pub proof fn lemma_saved_name_is_last_component(out: Seq<char>, filename: Seq<char>)
    requires
        out.len() > 0,
        out.last() != '/',
        filename.len() > 0,
        !filename.contains('/'),
        filename != seq!['.'],
        filename != seq!['.', '.'],
    ensures
        file_name(output_path_of(out, true, filename)) == Some(filename),
{
    assert(filename[0] != '/');
    crate::text::lemma_split_concat(out, filename, '/');
    crate::text::lemma_split_without_sep(filename, '/');
    let segs = split(out + seq!['/'] + filename, '/');
    assert(segs.last() == filename);
}

/// Law: the size read from a `Content-Range` value is the number written
/// after its slash, for every `u64`.
pub proof fn lemma_range_total_reads_the_size(prefix: Seq<char>, n: u64)
    requires
        !prefix.contains('/'),
    ensures
        range_total(Some(prefix + seq!['/'] + crate::text::decimal(n as nat))) == Some(n),
{
    let d = crate::text::decimal(n as nat);
    crate::text::lemma_decimal_digits(n as nat);
    assert(!d.contains('/')) by {
        if d.contains('/') {
            let k = choose|k: int| 0 <= k < d.len() && d[k] == '/';
            assert(crate::text::is_digit(d[k]));
        }
    }
    crate::text::lemma_split_concat(prefix, d, '/');
    crate::text::lemma_split_without_sep(prefix, '/');
    crate::text::lemma_split_without_sep(d, '/');
    let parts = split(prefix + seq!['/'] + d, '/');
    assert(parts =~= seq![prefix, d]);
    crate::text::lemma_decimal_round_trip(n);
}

/// The upper-case partner of a lower-case ASCII letter; other characters
/// stay.
pub open spec fn ascii_upper(c: char) -> char {
    if 'a' <= c && c <= 'z' {
        (c as int - 32) as char
    } else {
        c
    }
}

/// Law: lower-casing turns each upper-case ASCII letter into a lower-case
/// one whose upper-case partner it is, leaves lower-case letters as they
/// are, and so undoes upper-casing.
pub proof fn lemma_ascii_lower_letters(c: char)
    ensures
        'A' <= c && c <= 'Z' ==> 'a' <= ascii_lower(c) && ascii_lower(c) <= 'z' && ascii_upper(
            ascii_lower(c),
        ) == c,
        'a' <= c && c <= 'z' ==> ascii_lower(c) == c && ascii_lower(ascii_upper(c)) == c,
        ascii_lower(ascii_upper(c)) == ascii_lower(c),
{
}

/// Law: the test of the disposition type ignores case: a type and its
/// upper-cased form are accepted alike.
pub proof fn lemma_disposition_type_ignores_case(t: Seq<char>)
    ensures
        is_disposition_type(t.map_values(|c: char| ascii_upper(c))) == is_disposition_type(t),
{
    let u = t.map_values(|c: char| ascii_upper(c));
    assert(u.len() == t.len());
    assert forall|i: int| 0 <= i < t.len() implies ascii_lower(#[trigger] u[i]) == ascii_lower(
        t[i],
    ) by {
        lemma_ascii_lower_letters(t[i]);
    }
    assert forall|i: int| 0 <= i < t.len() implies ascii_lower(#[trigger] t[i]) == ascii_lower(
        u[i],
    ) by {
        lemma_ascii_lower_letters(t[i]);
    }
    assert(eq_lowercase(u, "inline"@) == eq_lowercase(t, "inline"@));
    assert(eq_lowercase(u, "attachment"@) == eq_lowercase(t, "attachment"@));
}

} // verus!
