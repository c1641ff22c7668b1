//! ALPM local-database parsing and the ALPM component provider.
//!
//! A local ALPM database holds one directory per installed package with a
//! `desc` file (package metadata) and a `files` file (owned paths), both
//! in the section-header format `%SECTION%` followed by content lines.

use vstd::prelude::*;

use vstd::string::StringSliceAdditionalSpecFns;

use crate::filemap::clone_path;
use crate::strutil::{digits_val, is_u64_string, parse_u64, spec_lines, spec_trim, split_lines,
    str_eq, trim};

verus! {

/// ALPM database files larger than this (64 MiB) are rejected.
pub const ALPM_DBFILE_MAXIMUM_SIZE: u64 = 67108864;

/// A malformed or oversized ALPM database file.
#[derive(Debug, Clone, Copy, PartialEq, Eq, Structural)]
pub enum AlpmError {
    /// The file exceeds [`ALPM_DBFILE_MAXIMUM_SIZE`] bytes.
    TooLarge,
    /// The same section name appears twice.
    DuplicateSection,
    /// A content line appears before any section header.
    ContentBeforeHeader,
}

/// A failed lookup into a parsed ALPM database file.
#[derive(Debug, Clone, Copy, PartialEq, Eq, Structural)]
pub enum AlpmValueError {
    /// The requested section does not exist.
    SectionNotFound,
    /// The section has no content line.
    NoValue,
    /// The section has more than one content line.
    ExtraData,
    /// The value does not parse as an unsigned number.
    NotANumber,
}

/// The section name of a well-formed header line `%NAME%`: at least one
/// character, all ASCII uppercase, wrapped in percent signs.
pub open spec fn spec_header(l: Seq<char>) -> Option<Seq<char>> {
    if l.len() >= 3 && l.first() == '%' && l.last() == '%' && (forall|j: int|
        1 <= j < l.len() - 1 ==> 'A' <= #[trigger] l[j] <= 'Z') {
        Option::Some(l.subrange(1, l.len() - 1))
    } else {
        Option::None
    }
}

/// Whether the section list `s` has a section named `name`.
pub open spec fn sec_has(s: Seq<(Seq<char>, Seq<Seq<char>>)>, name: Seq<char>) -> bool {
    exists|i: int| 0 <= i < s.len() && s[i].0 == name
}

/// Content of the section named `name`.
pub open spec fn sec_get(s: Seq<(Seq<char>, Seq<Seq<char>>)>, name: Seq<char>) -> Seq<Seq<char>> {
    let i = choose|i: int| 0 <= i < s.len() && s[i].0 == name;
    s[i].1
}

/// Pairwise distinct section names.
pub open spec fn sec_unique(s: Seq<(Seq<char>, Seq<Seq<char>>)>) -> bool {
    forall|p: int, q: int| 0 <= p < q < s.len() ==> s[p].0 != s[q].0
}

proof fn lemma_sec_get_at(s: Seq<(Seq<char>, Seq<Seq<char>>)>, name: Seq<char>, at: int)
    requires
        sec_unique(s),
        0 <= at < s.len(),
        s[at].0 == name,
    ensures
        sec_get(s, name) == s[at].1,
{
    assert(sec_has(s, name));
    let i = choose|i: int| 0 <= i < s.len() && s[i].0 == name;
    if i < at {
        assert(s[i].0 != s[at].0);
    } else if at < i {
        assert(s[at].0 != s[i].0);
    }
}

/// One line folded into the section list: a header opens a fresh
/// section; a content line joins the most recent one.
pub open spec fn spec_parse_step(
    secs: Seq<(Seq<char>, Seq<Seq<char>>)>,
    line: Seq<char>,
) -> Result<Seq<(Seq<char>, Seq<Seq<char>>)>, AlpmError> {
    match spec_header(line) {
        Option::Some(name) => if sec_has(secs, name) {
            Result::Err(AlpmError::DuplicateSection)
        } else {
            Result::Ok(secs.push((name, Seq::empty())))
        },
        Option::None => if secs.len() == 0 {
            Result::Err(AlpmError::ContentBeforeHeader)
        } else {
            Result::Ok(
                secs.update(
                    secs.len() - 1,
                    (secs.last().0, secs.last().1.push(line)),
                ),
            )
        },
    }
}

/// All lines folded into a section list, in order.
pub open spec fn spec_parse_lines(lines: Seq<Seq<char>>) -> Result<
    Seq<(Seq<char>, Seq<Seq<char>>)>,
    AlpmError,
>
    decreases lines.len(),
{
    if lines.len() == 0 {
        Result::Ok(Seq::empty())
    } else {
        match spec_parse_lines(lines.drop_last()) {
            Result::Err(e) => Result::Err(e),
            Result::Ok(secs) => spec_parse_step(secs, lines.last()),
        }
    }
}

/// Trailing empty lines of a section's content are ignored.
pub open spec fn trim_trailing_empty(v: Seq<Seq<char>>) -> Seq<Seq<char>>
    decreases v.len(),
{
    if v.len() > 0 && v.last().len() == 0 {
        trim_trailing_empty(v.drop_last())
    } else {
        v
    }
}

/// The parsed form of an ALPM database file's text: its sections in
/// order, trailing empty content lines removed.
pub open spec fn spec_parse_db(s: Seq<char>) -> Result<
    Seq<(Seq<char>, Seq<Seq<char>>)>,
    AlpmError,
> {
    match spec_parse_lines(spec_lines(s)) {
        Result::Err(e) => Result::Err(e),
        Result::Ok(secs) => Result::Ok(
            secs.map_values(
                |sec: (Seq<char>, Seq<Seq<char>>)| (sec.0, trim_trailing_empty(sec.1)),
            ),
        ),
    }
}

/// Checks that the given line is a well-formed section header and
/// returns the section name if it is.
pub fn match_valid_header(line: &str) -> (r: Option<&str>)
    ensures
        match r {
            Option::Some(name) => spec_header(line@) == Option::Some(name@),
            Option::None => spec_header(line@) is None,
        },
{
    let n = line.unicode_len();
    if n < 3 {
        return Option::None;
    }
    if line.get_char(0) != '%' || line.get_char(n - 1) != '%' {
        proof {
            assert(line@.first() == line@[0]);
            assert(line@.last() == line@[n - 1]);
        }
        return Option::None;
    }
    let mut j: usize = 1;
    loop
        invariant
            1 <= j <= n - 1,
            n == line@.len(),
            n >= 3,
            forall|p: int| 1 <= p < j ==> 'A' <= #[trigger] line@[p] <= 'Z',
        ensures
            1 <= j <= n - 1,
            forall|p: int| 1 <= p < j ==> 'A' <= #[trigger] line@[p] <= 'Z',
            j < n - 1 ==> !('A' <= line@[j as int] <= 'Z'),
        decreases n - j,
    {
        if j >= n - 1 {
            break;
        }
        let c = line.get_char(j);
        if c < 'A' || c > 'Z' {
            break;
        }
        j = j + 1;
    }
    if j < n - 1 {
        proof {
            assert(spec_header(line@) is None);
        }
        return Option::None;
    }
    let name = line.substring_char(1, n - 1);
    proof {
        assert(line@.first() == line@[0]);
        assert(line@.last() == line@[n - 1]);
        assert(name@ =~= line@.subrange(1, n - 1));
    }
    Option::Some(name)
}

/// A parsed ALPM local database file (`desc` or `files`): its sections,
/// each a name with content lines.
#[derive(Debug)]
pub struct LocalAlpmDbFile {
    sections: Vec<(String, Vec<String>)>,
}

impl View for LocalAlpmDbFile {
    type V = Seq<(Seq<char>, Seq<Seq<char>>)>;

    closed spec fn view(&self) -> Seq<(Seq<char>, Seq<Seq<char>>)> {
        self.sections.deep_view()
    }
}

impl LocalAlpmDbFile {
    /// Section names are unique.
    pub open spec fn wf(self) -> bool {
        sec_unique(self@)
    }

    /// Parse the text of an ALPM database file.
    ///
    /// Rejects text over [`ALPM_DBFILE_MAXIMUM_SIZE`] bytes; otherwise
    /// the result is exactly [`spec_parse_db`] of the text: sections in
    /// order of appearance, duplicate sections and headerless content
    /// rejected.
    pub fn parse(s: &str) -> (r: Result<LocalAlpmDbFile, AlpmError>)
        ensures
            s.spec_bytes().len() > ALPM_DBFILE_MAXIMUM_SIZE ==> r == Result::<
                LocalAlpmDbFile,
                AlpmError,
            >::Err(AlpmError::TooLarge),
            s.spec_bytes().len() <= ALPM_DBFILE_MAXIMUM_SIZE ==> match r {
                Result::Ok(db) => db.wf() && spec_parse_db(s@) == Result::<
                    Seq<(Seq<char>, Seq<Seq<char>>)>,
                    AlpmError,
                >::Ok(db@),
                Result::Err(e) => spec_parse_db(s@) == Result::<
                    Seq<(Seq<char>, Seq<Seq<char>>)>,
                    AlpmError,
                >::Err(e),
            },
    {
        let sbytes = s.as_bytes();
        let nbytes = sbytes.len();
        if nbytes > ALPM_DBFILE_MAXIMUM_SIZE as usize {
            return Result::Err(AlpmError::TooLarge);
        }
        let lines = split_lines(s);
        let ghost lv = lines.deep_view();
        let mut secs: Vec<(String, Vec<String>)> = Vec::new();
        proof {
            assert(lv.subrange(0, 0) =~= Seq::<Seq<char>>::empty());
            assert(secs.deep_view() =~= Seq::<(Seq<char>, Seq<Seq<char>>)>::empty());
        }
        let mut i: usize = 0;
        while i < lines.len()
            invariant
                i <= lv.len(),
                lv == lines.deep_view(),
                lv == spec_lines(s@),
                s.spec_bytes().len() <= ALPM_DBFILE_MAXIMUM_SIZE,
                sec_unique(secs.deep_view()),
                spec_parse_lines(lv.subrange(0, i as int)) == Result::<
                    Seq<(Seq<char>, Seq<Seq<char>>)>,
                    AlpmError,
                >::Ok(secs.deep_view()),
            decreases lv.len() - i,
        {
            let ghost pre = secs.deep_view();
            proof {
                assert(lv.subrange(0, i + 1).drop_last() =~= lv.subrange(0, i as int));
                assert(lv.subrange(0, i + 1).last() == lv[i as int]);
                assert(lines@[i as int]@ == lv[i as int]);
            }
            let line = &lines[i];
            match match_valid_header(line.as_str()) {
                Option::Some(name) => {
                    // Reject a section name that already exists.
                    let mut j: usize = 0;
                    loop
                        invariant
                            j <= pre.len(),
                            pre == secs.deep_view(),
                            forall|q: int| 0 <= q < j ==> pre[q].0 != name@,
                        ensures
                            j <= pre.len(),
                            pre == secs.deep_view(),
                            forall|q: int| 0 <= q < j ==> pre[q].0 != name@,
                            j < pre.len() ==> pre[j as int].0 == name@,
                        decreases pre.len() - j,
                    {
                        if j >= secs.len() {
                            break;
                        }
                        proof {
                            assert(pre[j as int].0 == secs@[j as int].0@);
                        }
                        if str_eq(secs[j].0.as_str(), name) {
                            break;
                        }
                        j = j + 1;
                    }
                    if j < secs.len() {
                        proof {
                            assert(sec_has(pre, name@));
                            lemma_parse_lines_extend_err(lv, i as int);
                        }
                        return Result::Err(AlpmError::DuplicateSection);
                    }
                    proof {
                        assert(!sec_has(pre, name@));
                    }
                    let fresh: Vec<String> = Vec::new();
                    proof {
                        assert(fresh.deep_view() =~= Seq::<Seq<char>>::empty());
                    }
                    secs.push((name.to_owned(), fresh));
                    proof {
                        assert(secs.deep_view()[pre.len() as int] == (name@, Seq::<Seq<
                            char,
                        >>::empty()));
                        assert(secs.deep_view() =~= pre.push((name@, Seq::<Seq<char>>::empty())));
                        assert(sec_unique(secs.deep_view())) by {
                            let post = secs.deep_view();
                            assert forall|p: int, q: int|
                                0 <= p < q < post.len() implies post[p].0 != post[q].0 by {
                                if q < pre.len() {
                                    assert(post[p] == pre[p] && post[q] == pre[q]);
                                } else {
                                    assert(post[p] == pre[p]);
                                }
                            }
                        }
                    }
                },
                Option::None => {
                    if secs.len() == 0 {
                        proof {
                            lemma_parse_lines_extend_err(lv, i as int);
                        }
                        return Result::Err(AlpmError::ContentBeforeHeader);
                    }
                    let mut last = secs.pop().unwrap();
                    proof {
                        assert(pre.last() == (last.0@, last.1.deep_view()));
                        assert(secs.deep_view() =~= pre.drop_last());
                    }
                    let ghost lastv = last.1.deep_view();
                    last.1.push(line.clone());
                    proof {
                        assert(last.1.deep_view() =~= lastv.push(lv[i as int]));
                    }
                    secs.push(last);
                    proof {
                        let post = secs.deep_view();
                        assert(post[pre.len() - 1] == (pre.last().0, pre.last().1.push(
                            lv[i as int],
                        )));
                        assert(post =~= pre.update(
                            pre.len() - 1,
                            (pre.last().0, pre.last().1.push(lv[i as int])),
                        ));
                        assert(sec_unique(post)) by {
                            assert forall|p: int, q: int|
                                0 <= p < q < post.len() implies post[p].0 != post[q].0 by {
                                assert(post[p].0 == pre[p].0 && post[q].0 == pre[q].0);
                            }
                        }
                    }
                },
            }
            i = i + 1;
        }
        proof {
            assert(lv.subrange(0, lv.len() as int) =~= lv);
        }
        // Drop trailing empty lines of every section.
        let ghost parsed = secs.deep_view();
        let mut out: Vec<(String, Vec<String>)> = Vec::new();
        let mut i2: usize = 0;
        while i2 < secs.len()
            invariant
                i2 <= parsed.len(),
                parsed == secs.deep_view(),
                sec_unique(parsed),
                out.deep_view() =~= parsed.subrange(0, i2 as int).map_values(
                    |sec: (Seq<char>, Seq<Seq<char>>)| (sec.0, trim_trailing_empty(sec.1)),
                ),
            decreases parsed.len() - i2,
        {
            let ghost pre_out = out.deep_view();
            let name = secs[i2].0.clone();
            let mut content = clone_path(&secs[i2].1);
            proof {
                assert(parsed[i2 as int] == (secs@[i2 as int].0@, secs@[i2 as int].1.deep_view()));
                assert(name@ == parsed[i2 as int].0);
                assert(content.deep_view() == parsed[i2 as int].1);
            }
            loop
                invariant
                    trim_trailing_empty(content.deep_view()) == trim_trailing_empty(
                        parsed[i2 as int].1,
                    ),
                ensures
                    content.deep_view() == trim_trailing_empty(parsed[i2 as int].1),
                decreases content@.len(),
            {
                let clen = content.len();
                if clen == 0 {
                    proof {
                        assert(content.deep_view() =~= trim_trailing_empty(content.deep_view()));
                    }
                    break;
                }
                proof {
                    assert(content.deep_view().last() == content@[clen - 1]@);
                }
                if content[clen - 1].as_str().unicode_len() > 0 {
                    proof {
                        assert(content.deep_view().last().len() > 0);
                        assert(content.deep_view() =~= trim_trailing_empty(content.deep_view()));
                    }
                    break;
                }
                let ghost pre_c = content.deep_view();
                content.pop();
                proof {
                    assert(content.deep_view() =~= pre_c.drop_last());
                }
            }
            out.push((name, content));
            proof {
                assert(out.deep_view() =~= pre_out.push(
                    (parsed[i2 as int].0, trim_trailing_empty(parsed[i2 as int].1)),
                ));
                assert(parsed.subrange(0, i2 + 1).map_values(
                    |sec: (Seq<char>, Seq<Seq<char>>)| (sec.0, trim_trailing_empty(sec.1)),
                ) =~= parsed.subrange(0, i2 as int).map_values(
                    |sec: (Seq<char>, Seq<Seq<char>>)| (sec.0, trim_trailing_empty(sec.1)),
                ).push((parsed[i2 as int].0, trim_trailing_empty(parsed[i2 as int].1))));
            }
            i2 = i2 + 1;
        }
        proof {
            assert(parsed.subrange(0, parsed.len() as int) =~= parsed);
        }
        let db = LocalAlpmDbFile { sections: out };
        proof {
            assert(sec_unique(db@)) by {
                assert forall|p: int, q: int|
                    0 <= p < q < db@.len() implies db@[p].0 != db@[q].0 by {
                    assert(db@[p].0 == parsed[p].0 && db@[q].0 == parsed[q].0);
                }
            }
        }
        Result::Ok(db)
    }

    /// Returns the single content line of the named section. Fails when
    /// the section is missing, empty, or has more than one line.
    pub fn get_single_line_value(&self, section: &str) -> (r: Result<&str, AlpmValueError>)
        requires
            self.wf(),
        ensures
            !sec_has(self@, section@) ==> r == Result::<&str, AlpmValueError>::Err(
                AlpmValueError::SectionNotFound,
            ),
            sec_has(self@, section@) ==> {
                let v = sec_get(self@, section@);
                match r {
                    Result::Ok(line) => v.len() == 1 && line@ == v[0],
                    Result::Err(e) => (v.len() == 0 && e == AlpmValueError::NoValue) || (v.len()
                        > 1 && e == AlpmValueError::ExtraData),
                }
            },
    {
        let ghost sv = self@;
        let mut i: usize = 0;
        while i < self.sections.len()
            invariant
                self.wf(),
                sv == self@,
                i <= sv.len(),
                forall|j: int| 0 <= j < i ==> sv[j].0 != section@,
            decreases sv.len() - i,
        {
            proof {
                assert(sv[i as int].0 == self.sections@[i as int].0@);
            }
            if str_eq(self.sections[i].0.as_str(), section) {
                proof {
                    lemma_sec_get_at(sv, section@, i as int);
                }
                let content = &self.sections[i].1;
                proof {
                    assert(content.deep_view() == sv[i as int].1);
                }
                if content.len() == 0 {
                    return Result::Err(AlpmValueError::NoValue);
                }
                if content.len() > 1 {
                    return Result::Err(AlpmValueError::ExtraData);
                }
                proof {
                    assert(content.deep_view()[0] == content@[0]@);
                }
                return Result::Ok(content[0].as_str());
            }
            i = i + 1;
        }
        proof {
            assert(!sec_has(sv, section@));
        }
        Result::Err(AlpmValueError::SectionNotFound)
    }

    /// Returns all content lines of the named section, or `None` when
    /// the section does not exist.
    pub fn get_multi_line_value(&self, section: &str) -> (r: Option<&Vec<String>>)
        requires
            self.wf(),
        ensures
            match r {
                Option::Some(v) => sec_has(self@, section@) && v.deep_view() == sec_get(
                    self@,
                    section@,
                ),
                Option::None => !sec_has(self@, section@),
            },
    {
        let ghost sv = self@;
        let mut i: usize = 0;
        while i < self.sections.len()
            invariant
                self.wf(),
                sv == self@,
                i <= sv.len(),
                forall|j: int| 0 <= j < i ==> sv[j].0 != section@,
            decreases sv.len() - i,
        {
            proof {
                assert(sv[i as int].0 == self.sections@[i as int].0@);
            }
            if str_eq(self.sections[i].0.as_str(), section) {
                proof {
                    lemma_sec_get_at(sv, section@, i as int);
                }
                return Option::Some(&self.sections[i].1);
            }
            i = i + 1;
        }
        proof {
            assert(!sec_has(sv, section@));
        }
        Option::None
    }

    /// The `%BUILDDATE%` value of a `desc` file: the single line of the
    /// BUILDDATE section, trimmed, as an unsigned number.
    pub fn builddate(&self) -> (r: Result<u64, AlpmValueError>)
        requires
            self.wf(),
        ensures
            r == spec_builddate(self@),
    {
        match self.get_single_line_value("BUILDDATE") {
            Result::Err(e) => Result::Err(e),
            Result::Ok(line) => {
                let t = trim(line);
                match parse_u64(t) {
                    Option::Some(v) => Result::Ok(v),
                    Option::None => Result::Err(AlpmValueError::NotANumber),
                }
            },
        }
    }

    /// The `%BASE%` value of a `desc` file: the package base name.
    pub fn base(&self) -> (r: Result<&str, AlpmValueError>)
        requires
            self.wf(),
        ensures
            !sec_has(self@, "BASE"@) ==> r == Result::<&str, AlpmValueError>::Err(
                AlpmValueError::SectionNotFound,
            ),
            sec_has(self@, "BASE"@) ==> {
                let v = sec_get(self@, "BASE"@);
                match r {
                    Result::Ok(line) => v.len() == 1 && line@ == v[0],
                    Result::Err(e) => (v.len() == 0 && e == AlpmValueError::NoValue) || (v.len()
                        > 1 && e == AlpmValueError::ExtraData),
                }
            },
    {
        self.get_single_line_value("BASE")
    }

    /// The non-empty lines of the `%FILES%` section: the paths the
    /// package owns, relative to the root. A missing section (a package
    /// that tracks no files) yields the empty list.
    pub fn files(&self) -> (r: Vec<String>)
        requires
            self.wf(),
        ensures
            r.deep_view() == spec_files(self@),
    {
        let content = match self.get_multi_line_value("FILES") {
            Option::Some(v) => v,
            Option::None => {
                let r: Vec<String> = Vec::new();
                proof {
                    assert(r.deep_view() =~= Seq::<Seq<char>>::empty());
                }
                return r;
            },
        };
        let ghost cv = content.deep_view();
        let mut out: Vec<String> = Vec::new();
        proof {
            assert(cv.skip(0) =~= cv);
            assert(out.deep_view() + keep_nonempty(cv) =~= keep_nonempty(cv));
        }
        let mut i: usize = 0;
        while i < content.len()
            invariant
                i <= cv.len(),
                cv == content.deep_view(),
                keep_nonempty(cv) =~= out.deep_view() + keep_nonempty(cv.skip(i as int)),
            decreases cv.len() - i,
        {
            let ghost pre = out.deep_view();
            proof {
                let tail = cv.skip(i as int);
                assert(tail.first() == cv[i as int]);
                assert(tail.drop_first() =~= cv.skip(i + 1));
                assert(content@[i as int]@ == cv[i as int]);
            }
            let line = &content[i];
            if line.as_str().unicode_len() > 0 {
                out.push(line.clone());
                proof {
                    let rest = keep_nonempty(cv.skip(i + 1));
                    assert(pre + (seq![cv[i as int]] + rest) =~= (pre + seq![cv[i as int]])
                        + rest);
                    assert(out.deep_view() =~= pre + seq![cv[i as int]]);
                }
            }
            i = i + 1;
        }
        proof {
            assert(cv.skip(cv.len() as int) =~= Seq::<Seq<char>>::empty());
            assert(out.deep_view() + keep_nonempty(cv.skip(cv.len() as int)) =~= out.deep_view());
        }
        out
    }
}

/// The `%BUILDDATE%` value a `desc` file denotes, or the lookup error.
pub open spec fn spec_builddate(db: Seq<(Seq<char>, Seq<Seq<char>>)>) -> Result<
    u64,
    AlpmValueError,
> {
    if !sec_has(db, "BUILDDATE"@) {
        Result::Err(AlpmValueError::SectionNotFound)
    } else {
        let v = sec_get(db, "BUILDDATE"@);
        if v.len() == 0 {
            Result::Err(AlpmValueError::NoValue)
        } else if v.len() > 1 {
            Result::Err(AlpmValueError::ExtraData)
        } else {
            let t = spec_trim(v[0]);
            if is_u64_string(t) {
                Result::Ok(digits_val(t) as u64)
            } else {
                Result::Err(AlpmValueError::NotANumber)
            }
        }
    }
}

/// The elements of `s` that are non-empty, in order.
pub open spec fn keep_nonempty(s: Seq<Seq<char>>) -> Seq<Seq<char>>
    decreases s.len(),
{
    if s.len() == 0 {
        Seq::empty()
    } else {
        let rest = keep_nonempty(s.drop_first());
        if s.first().len() > 0 {
            seq![s.first()] + rest
        } else {
            rest
        }
    }
}

/// The paths a package's `files` file lists: the non-empty lines of its
/// FILES section, or nothing when the section is absent.
pub open spec fn spec_files(db: Seq<(Seq<char>, Seq<Seq<char>>)>) -> Seq<Seq<char>> {
    if sec_has(db, "FILES"@) {
        keep_nonempty(sec_get(db, "FILES"@))
    } else {
        Seq::empty()
    }
}

proof fn lemma_parse_lines_extend_err(lines: Seq<Seq<char>>, n: int)
    requires
        0 <= n < lines.len(),
        spec_parse_lines(lines.subrange(0, n + 1)) is Err,
    ensures
        spec_parse_lines(lines) == spec_parse_lines(lines.subrange(0, n + 1)),
    decreases lines.len() - n,
{
    if n + 1 < lines.len() {
        assert(lines.subrange(0, n + 2).drop_last() =~= lines.subrange(0, n + 1));
        assert(spec_parse_lines(lines.subrange(0, n + 2)) == spec_parse_lines(
            lines.subrange(0, n + 1),
        ));
        lemma_parse_lines_extend_err(lines, n + 1);
    } else {
        assert(lines.subrange(0, n + 1) =~= lines);
    }
}

} // verus!
