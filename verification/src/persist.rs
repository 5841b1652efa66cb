//! The persistence contract: a list is written as a fixed header line
//! `id,completed,title` followed by one `<id>,<true|false>,<title>` line
//! per item in list order, each line ended by a line feed.
//!
//! Policies, applied consistently and verified here:
//! - on save, a comma inside a title is replaced by a space (lossy), so a
//!   record line always splits into exactly three fields;
//! - on load, parsing fails fast on the first malformed line: a wrong
//!   field count, an id that is not a decimal the counter can exceed or
//!   that repeats an earlier id, a flag that is not exactly `true` or
//!   `false`, or a blank title;
//! - record lines are not trimmed, so titles keep their whitespace; only
//!   the header line tolerates surrounding whitespace, and only lines that
//!   are completely empty are skipped;
//! - after a load the counter sits one past the largest id seen, or at 1
//!   when there were no records.

use vstd::prelude::*;
use vstd::string::StrSliceExecFns;
use vstd::string::StringExecFns;

use crate::error::FormatErrorKind;
use crate::error::IoErrorKind;
use crate::error::TodoError;
use crate::item::ItemModel;
use crate::item::TodoItem;
use crate::item::models_of;
use crate::list::TodoList;
use crate::list::has_id;
use crate::text::all_digits;
use crate::text::dec_val;
use crate::text::has_visible;
use crate::text::has_visible_char;
use crate::text::is_digit_char;
use crate::text::lemma_spec_dec;
use crate::text::lemma_split_concat;
use crate::text::lemma_split_no_sep;
use crate::text::lemma_trim_noop;
use crate::text::no_char;
use crate::text::parse_u32;
use crate::text::spec_dec;
use crate::text::spec_split;
use crate::text::spec_trim;
use crate::text::split_str;
use crate::text::str_eq;
use crate::text::trim_str;
use crate::text::u32_to_string;
use crate::text::valid_id_chars;
use crate::text::views_of;

verus! {

/// The fixed header line.
pub open spec fn header_chars() -> Seq<char> {
    seq!['i', 'd', ',', 'c', 'o', 'm', 'p', 'l', 'e', 't', 'e', 'd', ',', 't', 'i', 't', 'l', 'e']
}

pub open spec fn true_chars() -> Seq<char> {
    seq!['t', 'r', 'u', 'e']
}

pub open spec fn false_chars() -> Seq<char> {
    seq!['f', 'a', 'l', 's', 'e']
}

/// How a completion flag is written.
pub open spec fn flag_chars(b: bool) -> Seq<char> {
    if b {
        true_chars()
    } else {
        false_chars()
    }
}

/// A title as written to a file: every comma replaced by a space, so the
/// record line keeps exactly three fields.
pub open spec fn stored_title(t: Seq<char>) -> Seq<char> {
    t.map_values(|c: char| if c == ',' { ' ' } else { c })
}

/// One record line, with its terminating line feed.
pub open spec fn render_row(m: ItemModel) -> Seq<char> {
    spec_dec(m.id as nat) + seq![','] + flag_chars(m.completed) + seq![','] + stored_title(m.title)
        + seq!['\n']
}

/// All record lines, in list order.
pub open spec fn render_rows(ms: Seq<ItemModel>) -> Seq<char>
    decreases ms.len(),
{
    if ms.len() == 0 {
        Seq::empty()
    } else {
        render_row(ms[0]) + render_rows(ms.drop_first())
    }
}

/// The whole persisted text.
pub open spec fn render_list(ms: Seq<ItemModel>) -> Seq<char> {
    header_chars() + seq!['\n'] + render_rows(ms)
}

proof fn lemma_render_rows_push(ms: Seq<ItemModel>, m: ItemModel)
    ensures
        render_rows(ms.push(m)) == render_rows(ms) + render_row(m),
    decreases ms.len(),
{
    if ms.len() == 0 {
        let p = ms.push(m);
        assert(p[0] == m);
        assert(p.drop_first() =~= Seq::<ItemModel>::empty());
        assert(render_rows(p.drop_first()) == Seq::<char>::empty());
        assert(render_rows(p) == render_row(m) + render_rows(p.drop_first()));
        assert(render_rows(ms) + render_row(m) =~= render_row(m) + Seq::<char>::empty());
    } else {
        assert(ms.push(m)[0] == ms[0]);
        assert(ms.push(m).drop_first() =~= ms.drop_first().push(m));
        lemma_render_rows_push(ms.drop_first(), m);
        assert(render_row(ms[0]) + (render_rows(ms.drop_first()) + render_row(m)) =~= (render_row(
            ms[0],
        ) + render_rows(ms.drop_first())) + render_row(m));
    }
}

fn append_stored_title(out: &mut String, title: &String)
    ensures
        final(out)@ == old(out)@ + stored_title(title@),
{
    let n = title.as_str().unicode_len();
    let mut j: usize = 0;
    while j < n
        invariant
            j <= n,
            n == title@.len(),
            out@ == old(out)@ + stored_title(title@.take(j as int)),
        decreases n - j,
    {
        proof {
            assert(stored_title(title@.take(j as int + 1)) =~= stored_title(
                title@.take(j as int),
            ).push(if title@[j as int] == ',' {
                ' '
            } else {
                title@[j as int]
            }));
        }
        let c = title.as_str().get_char(j);
        if c == ',' {
            out.append(" ");
            proof {
                reveal_strlit(" ");
                assert(" "@ =~= seq![' ']);
                assert(out@ =~= old(out)@ + stored_title(title@.take(j as int + 1)));
            }
        } else {
            let piece = title.as_str().substring_char(j, j + 1);
            proof {
                assert(piece@ =~= seq![title@[j as int]]);
            }
            out.append(piece);
            proof {
                assert(out@ =~= old(out)@ + stored_title(title@.take(j as int + 1)));
            }
        }
        j += 1;
    }
    proof {
        assert(title@.take(n as int) =~= title@);
    }
}

impl TodoList {
    /// Writes the whole list as persisted text: the fixed header line,
    /// then one record line per item in list order. Commas inside titles
    /// are written as spaces.
    pub fn save_to_string(&self) -> (r: String)
        ensures
            r@ == render_list(models_of(self.items@)),
    {
        let mut out = String::new();
        out.append("id,completed,title");
        out.append("\n");
        proof {
            reveal_strlit("id,completed,title");
            reveal_strlit("\n");
            reveal_strlit(",");
            reveal_strlit("true");
            reveal_strlit("false");
            assert("id,completed,title"@ =~= header_chars());
            assert("\n"@ =~= seq!['\n']);
            assert(","@ =~= seq![',']);
            assert("true"@ =~= true_chars());
            assert("false"@ =~= false_chars());
            assert(models_of(self.items@.take(0)) =~= Seq::<ItemModel>::empty());
            assert(out@ =~= render_list(models_of(self.items@.take(0))));
        }
        let n = self.items.len();
        let mut i: usize = 0;
        while i < n
            invariant
                i <= n,
                n == self.items@.len(),
                out@ == render_list(models_of(self.items@.take(i as int))),
                "\n"@ == seq!['\n'],
                ","@ == seq![','],
                "true"@ == true_chars(),
                "false"@ == false_chars(),
            decreases n - i,
        {
            let ghost ms = models_of(self.items@.take(i as int));
            let ghost m = self.items@[i as int].model();
            let ghost out0 = out@;
            proof {
                assert(models_of(self.items@.take(i as int + 1)) =~= ms.push(m));
                lemma_render_rows_push(ms, m);
            }
            let item = &self.items[i];
            let ids = u32_to_string(item.id);
            out.append(ids.as_str());
            out.append(",");
            if item.completed {
                out.append("true");
            } else {
                out.append("false");
            }
            out.append(",");
            append_stored_title(&mut out, &item.title);
            out.append("\n");
            proof {
                assert(out@ =~= out0 + render_row(m));
                assert(out@ =~= render_list(models_of(self.items@.take(i as int + 1))));
            }
            i += 1;
        }
        proof {
            assert(self.items@.take(n as int) =~= self.items@);
        }
        out
    }
}

/// Why a load rejects its text, at the level of the mathematical model;
/// line numbers count from 1 at the header line.
pub enum LoadError {
    BadHeader(Seq<char>),
    BadRow(int),
    BadId(int),
    BadFlag(int),
    BlankTitle(int),
}

/// What a successful load reconstructs: the records in file order and the
/// recomputed id counter.
pub struct ListModel {
    pub items: Seq<ItemModel>,
    pub next_id: u32,
}

pub open spec fn model_has_id(ms: Seq<ItemModel>, id: u32) -> bool {
    exists|i: int| 0 <= i < ms.len() && ms[i].id == id
}

/// The id counter after one more record: one past the id when that is
/// higher than the counter so far.
pub open spec fn bump(next: u32, id: u32) -> u32 {
    if id + 1 > next {
        (id + 1) as u32
    } else {
        next
    }
}

/// The record read from one non-empty line, or the first reason the line
/// is rejected.
pub open spec fn parse_row(line: Seq<char>, lineno: int) -> Result<ItemModel, LoadError> {
    let fields = spec_split(line, ',');
    if fields.len() != 3 {
        Err(LoadError::BadRow(lineno))
    } else if !valid_id_chars(fields[0]) {
        Err(LoadError::BadId(lineno))
    } else if fields[1] != true_chars() && fields[1] != false_chars() {
        Err(LoadError::BadFlag(lineno))
    } else if !has_visible_char(fields[2]) {
        Err(LoadError::BlankTitle(lineno))
    } else {
        Ok(
            ItemModel {
                id: dec_val(fields[0]) as u32,
                completed: fields[1] == true_chars(),
                title: fields[2],
            },
        )
    }
}

/// Folds the record lines, left to right, over what was accepted so far.
/// Completely empty lines are skipped; an id that repeats one already
/// accepted is rejected where it stands.
pub open spec fn parse_rows(lines: Seq<Seq<char>>, lineno: int, acc: ListModel) -> Result<
    ListModel,
    LoadError,
>
    decreases lines.len(),
{
    if lines.len() == 0 {
        Ok(acc)
    } else if lines[0].len() == 0 {
        parse_rows(lines.drop_first(), lineno + 1, acc)
    } else {
        match parse_row(lines[0], lineno) {
            Err(e) => Err(e),
            Ok(m) => if model_has_id(acc.items, m.id) {
                Err(LoadError::BadId(lineno))
            } else {
                parse_rows(
                    lines.drop_first(),
                    lineno + 1,
                    ListModel { items: acc.items.push(m), next_id: bump(acc.next_id, m.id) },
                )
            },
        }
    }
}

/// What loading the whole text yields: the first line, trimmed, must be
/// exactly the header; then the remaining lines are folded as records,
/// starting from no items and a counter of 1.
pub open spec fn spec_load(text: Seq<char>) -> Result<ListModel, LoadError> {
    let lines = spec_split(text, '\n');
    let header = spec_trim(lines[0]);
    if header != header_chars() {
        Err(LoadError::BadHeader(header))
    } else {
        parse_rows(lines.drop_first(), 2, ListModel { items: Seq::empty(), next_id: 1 })
    }
}

/// The executable error that reports a model-level load error.
pub open spec fn error_matches(e: TodoError, le: LoadError) -> bool {
    match le {
        LoadError::BadHeader(h) => e matches TodoError::FormatError(FormatErrorKind::BadHeader(s))
            && s@ == h,
        LoadError::BadRow(n) => e matches TodoError::FormatError(FormatErrorKind::BadRow(k))
            && k as int == n,
        LoadError::BadId(n) => e matches TodoError::FormatError(FormatErrorKind::BadId(k))
            && k as int == n,
        LoadError::BadFlag(n) => e matches TodoError::FormatError(FormatErrorKind::BadFlag(k))
            && k as int == n,
        LoadError::BlankTitle(_) => e == TodoError::ValidationError,
    }
}

/// The executable load result that realizes a model-level load result: on
/// success a well-formed list carrying exactly the reconstructed records
/// and counter, on failure the corresponding error.
pub open spec fn load_matches(r: Result<TodoList, TodoError>, m: Result<ListModel, LoadError>) -> bool {
    match m {
        Ok(lm) => r matches Ok(l) && models_of(l.items@) == lm.items && l.next_id == lm.next_id
            && l.wf(),
        Err(le) => r matches Err(e) && error_matches(e, le),
    }
}

impl TodoList {
    /// Reads a whole persisted text back into a list, exactly as
    /// `spec_load` describes: fail-fast with the first format error, ids
    /// unique, and the counter one past the largest id seen (1 when the
    /// file had no records).
    pub fn load_from_string(text: &str) -> (r: Result<TodoList, TodoError>)
        ensures
            load_matches(r, spec_load(text@)),
    {
        let lines = split_str(text, '\n');
        let ghost lviews = views_of(lines@);
        proof {
            assert(lviews[0] == lines@[0]@);
        }
        let header = trim_str(lines[0].as_str());
        if !str_eq(header.as_str(), "id,completed,title") {
            proof {
                reveal_strlit("id,completed,title");
                assert("id,completed,title"@ =~= header_chars());
                assert(spec_load(text@) == Err::<ListModel, LoadError>(
                    LoadError::BadHeader(spec_trim(lviews[0])),
                ));
            }
            return Err(TodoError::FormatError(FormatErrorKind::BadHeader(header)));
        }
        let mut list = TodoList::new();
        proof {
            reveal_strlit("id,completed,title");
            assert("id,completed,title"@ =~= header_chars());
            assert(models_of(list.items@) =~= Seq::<ItemModel>::empty());
            assert(lviews.skip(1) =~= lviews.drop_first());
        }
        let nlines = lines.len();
        let mut k: usize = 1;
        while k < nlines
            invariant
                nlines == lines@.len(),
                1 <= k <= nlines,
                lviews == views_of(lines@),
                list.wf(),
                spec_load(text@) == parse_rows(
                    lviews.skip(k as int),
                    k as int + 1,
                    ListModel { items: models_of(list.items@), next_id: list.next_id },
                ),
            decreases nlines - k,
        {
            let ghost acc = ListModel { items: models_of(list.items@), next_id: list.next_id };
            proof {
                assert(lviews.skip(k as int).drop_first() =~= lviews.skip(k as int + 1));
                assert(lviews.skip(k as int)[0] == lines@[k as int]@);
            }
            let lineno = k + 1;
            if lines[k].as_str().unicode_len() == 0 {
                // an empty line is skipped
            } else {
                let fields = split_str(lines[k].as_str(), ',');
                let ghost fviews = views_of(fields@);
                proof {
                    assert(fviews == spec_split(lines@[k as int]@, ','));
                }
                if fields.len() != 3 {
                    return Err(TodoError::FormatError(FormatErrorKind::BadRow(lineno)));
                }
                let id = match parse_u32(fields[0].as_str()) {
                    Some(v) => v,
                    None => {
                        proof {
                            assert(fviews[0] == fields@[0]@);
                        }
                        return Err(TodoError::FormatError(FormatErrorKind::BadId(lineno)));
                    },
                };
                let completed = if str_eq(fields[1].as_str(), "true") {
                    true
                } else if str_eq(fields[1].as_str(), "false") {
                    false
                } else {
                    proof {
                        reveal_strlit("true");
                        reveal_strlit("false");
                        assert("true"@ =~= true_chars());
                        assert("false"@ =~= false_chars());
                    }
                    return Err(TodoError::FormatError(FormatErrorKind::BadFlag(lineno)));
                };
                proof {
                    reveal_strlit("true");
                    reveal_strlit("false");
                    assert("true"@ =~= true_chars());
                    assert("false"@ =~= false_chars());
                    assert(true_chars().len() == 4 && false_chars().len() == 5);
                    assert(completed == (fviews[1] == true_chars()));
                }
                if !has_visible(fields[2].as_str()) {
                    return Err(TodoError::ValidationError);
                }
                if list.get_item(id).is_some() {
                    proof {
                        assert(has_id(list.items@, id));
                        let j = choose|j: int|
                            0 <= j < list.items@.len() && list.items@[j].id == id;
                        assert(acc.items[j].id == id);
                        assert(model_has_id(acc.items, id));
                    }
                    return Err(TodoError::FormatError(FormatErrorKind::BadId(lineno)));
                }
                proof {
                    assert forall|j: int|
                        0 <= j < acc.items.len() implies (#[trigger] acc.items[j]).id != id by {
                        assert(acc.items[j].id == list.items@[j].id);
                    }
                    assert(!model_has_id(acc.items, id));
                }
                let ghost old_list = list;
                let title = fields[2].clone();
                let ghost m = ItemModel { id, completed, title: title@ };
                let item = TodoItem { id, title, completed };
                list.items.push(item);
                if id + 1 > list.next_id {
                    list.next_id = id + 1;
                }
                proof {
                    assert(models_of(list.items@) =~= acc.items.push(m));
                    assert(list.next_id == bump(acc.next_id, id));
                    assert(parse_row(lviews.skip(k as int)[0], k as int + 1) == Ok::<
                        ItemModel,
                        LoadError,
                    >(m));
                    let s0 = old_list.items@;
                    let s1 = list.items@;
                    assert(s1 =~= s0.push(item));
                    assert forall|a: int, b: int|
                        0 <= a < b < s1.len() implies s1[a].id != s1[b].id by {
                        if b < s0.len() {
                        } else {
                            assert(s1[a] == s0[a]);
                            assert(!has_id(s0, id));
                        }
                    }
                    assert forall|a: int| 0 <= a < s1.len() implies (#[trigger] s1[a]).id
                        < list.next_id && s1[a].valid() by {
                        if a < s0.len() {
                            assert(s1[a] == s0[a]);
                            assert(s0[a].id < old_list.next_id);
                        }
                    }
                    assert(list.wf());
                }
            }
            k += 1;
        }
        proof {
            assert(lviews.skip(nlines as int) =~= Seq::<Seq<char>>::empty());
        }
        Ok(list)
    }

    /// Decides a load from the outcome of reading the file: a failed read
    /// is reported as the corresponding `IoError` (a missing file as
    /// `NotFound`); text that was read is parsed as `load_from_string`.
    pub fn load_from_read(input: Result<String, IoErrorKind>) -> (r: Result<TodoList, TodoError>)
        ensures
            match input {
                Ok(text) => load_matches(r, spec_load(text@)),
                Err(k) => r == Err::<TodoList, TodoError>(TodoError::IoError(k)),
            },
    {
        match input {
            Ok(text) => TodoList::load_from_string(text.as_str()),
            Err(k) => Err(TodoError::IoError(k)),
        }
    }
}

proof fn lemma_no_char_concat(a: Seq<char>, b: Seq<char>, c: char)
    requires
        no_char(a, c),
        no_char(b, c),
    ensures
        no_char(a + b, c),
{
    assert forall|i: int| 0 <= i < (a + b).len() implies (a + b)[i] != c by {
        if i < a.len() {
            assert((a + b)[i] == a[i]);
        } else {
            assert((a + b)[i] == b[i - a.len()]);
        }
    }
}

proof fn lemma_stored_title_facts(t: Seq<char>)
    ensures
        no_char(stored_title(t), ','),
        no_char(t, ',') ==> stored_title(t) == t,
        no_char(t, '\n') ==> no_char(stored_title(t), '\n'),
{
    assert forall|i: int| 0 <= i < stored_title(t).len() implies stored_title(t)[i] != ',' by {
        assert(stored_title(t)[i] == if t[i] == ',' {
            ' '
        } else {
            t[i]
        });
    }
    if no_char(t, ',') {
        assert(stored_title(t) =~= t);
    }
    if no_char(t, '\n') {
        assert forall|i: int| 0 <= i < stored_title(t).len() implies stored_title(t)[i]
            != '\n' by {
            assert(stored_title(t)[i] == if t[i] == ',' {
                ' '
            } else {
                t[i]
            });
        }
    }
}

proof fn lemma_digit_seq_chars(t: Seq<char>)
    requires
        all_digits(t),
    ensures
        no_char(t, ','),
        no_char(t, '\n'),
{
    assert forall|i: int| 0 <= i < t.len() implies t[i] != ',' && t[i] != '\n' by {
        assert(is_digit_char(t[i]));
    }
}

proof fn lemma_flag_chars_facts(b: bool)
    ensures
        no_char(flag_chars(b), ','),
        no_char(flag_chars(b), '\n'),
        flag_chars(b).len() > 0,
        (flag_chars(b) == true_chars()) == b,
{
    assert(true_chars().len() == 4 && false_chars().len() == 5);
    assert forall|i: int| 0 <= i < true_chars().len() implies true_chars()[i] != ','
        && true_chars()[i] != '\n' by {}
    assert forall|i: int| 0 <= i < false_chars().len() implies false_chars()[i] != ','
        && false_chars()[i] != '\n' by {}
}

proof fn lemma_header_facts()
    ensures
        no_char(header_chars(), '\n'),
        spec_trim(header_chars()) == header_chars(),
{
    assert forall|i: int| 0 <= i < header_chars().len() implies header_chars()[i] != '\n' by {}
    assert(header_chars()[0] == 'i');
    assert(header_chars().last() == 'e');
    lemma_trim_noop(header_chars());
}

/// What `render_row` writes for one record: a line free of line feeds
/// whose body, when the title holds no comma, parses back to exactly the
/// record it came from.
proof fn lemma_parse_render_row(m: ItemModel, lineno: int)
    requires
        m.id < u32::MAX,
        has_visible_char(m.title),
        no_char(m.title, '\n'),
    ensures
        ({
            let body = spec_dec(m.id as nat) + seq![','] + flag_chars(m.completed) + seq![',']
                + stored_title(m.title);
            &&& render_row(m) == body + seq!['\n']
            &&& body.len() > 0
            &&& no_char(body, '\n')
            &&& (no_char(m.title, ',') ==> parse_row(body, lineno) == Ok::<ItemModel, LoadError>(
                m,
            ))
        }),
{
    let dec = spec_dec(m.id as nat);
    let flag = flag_chars(m.completed);
    let st = stored_title(m.title);
    let body = dec + seq![','] + flag + seq![','] + st;
    lemma_spec_dec(m.id as nat);
    lemma_digit_seq_chars(dec);
    lemma_flag_chars_facts(m.completed);
    lemma_stored_title_facts(m.title);
    assert(render_row(m) =~= body + seq!['\n']);
    assert(no_char(seq![','], '\n')) by {
        assert(seq![','].len() == 1);
    }
    lemma_no_char_concat(dec, seq![','], '\n');
    lemma_no_char_concat(dec + seq![','], flag, '\n');
    lemma_no_char_concat(dec + seq![','] + flag, seq![','], '\n');
    lemma_no_char_concat(dec + seq![','] + flag + seq![','], st, '\n');
    if no_char(m.title, ',') {
        assert(st == m.title);
        let tail = flag + seq![','] + st;
        assert(body =~= dec + seq![','] + tail);
        lemma_split_concat(dec, tail, ',');
        lemma_split_concat(flag, st, ',');
        lemma_split_no_sep(st, ',');
        let fields = spec_split(body, ',');
        assert(fields =~~= seq![dec, flag, st]);
        assert(fields.len() == 3);
        assert(valid_id_chars(fields[0]));
        assert(dec_val(fields[0]) as u32 == m.id);
        assert((fields[1] == true_chars()) == m.completed);
        assert(has_visible_char(fields[2]));
        let parsed = ItemModel {
            id: dec_val(fields[0]) as u32,
            completed: fields[1] == true_chars(),
            title: fields[2],
        };
        assert(parsed == m);
        assert(parse_row(body, lineno) == Ok::<ItemModel, LoadError>(m));
    }
}

/// The id counter after folding every record of `ms` into `next`.
pub open spec fn next_after(next: u32, ms: Seq<ItemModel>) -> u32
    decreases ms.len(),
{
    if ms.len() == 0 {
        next
    } else {
        next_after(bump(next, ms[0].id), ms.drop_first())
    }
}

proof fn lemma_next_after(next: u32, ms: Seq<ItemModel>)
    requires
        forall|i: int| 0 <= i < ms.len() ==> (#[trigger] ms[i]).id < u32::MAX,
    ensures
        next_after(next, ms) >= next,
        forall|i: int| 0 <= i < ms.len() ==> (#[trigger] ms[i]).id < next_after(next, ms),
    decreases ms.len(),
{
    if ms.len() > 0 {
        let b = bump(next, ms[0].id);
        assert forall|i: int|
            0 <= i < ms.drop_first().len() implies (#[trigger] ms.drop_first()[i]).id
            < u32::MAX by {
            assert(ms.drop_first()[i] == ms[i + 1]);
        }
        lemma_next_after(b, ms.drop_first());
        assert forall|i: int| 0 <= i < ms.len() implies (#[trigger] ms[i]).id < next_after(
            next,
            ms,
        ) by {
            if i == 0 {
                assert(ms[0].id < b);
            } else {
                assert(ms.drop_first()[i - 1] == ms[i]);
            }
        }
    }
}

/// Folding the lines that `render_rows` writes, when every title is valid
/// and clean and no id repeats, accepts every record in order.
proof fn lemma_parse_render_rows(ms: Seq<ItemModel>, acc: ListModel, lineno: int)
    requires
        forall|i: int| 0 <= i < ms.len() ==> (#[trigger] ms[i]).id < u32::MAX,
        forall|i: int| 0 <= i < ms.len() ==> has_visible_char((#[trigger] ms[i]).title),
        forall|i: int|
            0 <= i < ms.len() ==> no_char((#[trigger] ms[i]).title, ',') && no_char(
                ms[i].title,
                '\n',
            ),
        forall|i: int, j: int| 0 <= i < j < ms.len() ==> ms[i].id != ms[j].id,
        forall|i: int| 0 <= i < ms.len() ==> !model_has_id(acc.items, (#[trigger] ms[i]).id),
    ensures
        ({
            let r = parse_rows(spec_split(render_rows(ms), '\n'), lineno, acc);
            &&& r matches Ok(lm)
            &&& lm.items == acc.items + ms
            &&& lm.next_id == next_after(acc.next_id, ms)
        }),
    decreases ms.len(),
{
    if ms.len() == 0 {
        let lines = spec_split(render_rows(ms), '\n');
        assert(render_rows(ms) == Seq::<char>::empty());
        assert(lines == seq![Seq::<char>::empty()]);
        assert(lines[0].len() == 0);
        assert(lines.drop_first() =~= Seq::<Seq<char>>::empty());
        assert(parse_rows(lines.drop_first(), lineno + 1, acc) == Ok::<ListModel, LoadError>(acc));
        assert(parse_rows(lines, lineno, acc) == Ok::<ListModel, LoadError>(acc));
        assert(acc.items + ms =~= acc.items);
    } else {
        let m0 = ms[0];
        let rest = ms.drop_first();
        lemma_parse_render_row(m0, lineno);
        let body = spec_dec(m0.id as nat) + seq![','] + flag_chars(m0.completed) + seq![',']
            + stored_title(m0.title);
        assert(render_rows(ms) == render_row(m0) + render_rows(rest));
        assert(render_rows(ms) =~= body + seq!['\n'] + render_rows(rest));
        lemma_split_concat(body, render_rows(rest), '\n');
        let lines = spec_split(render_rows(ms), '\n');
        assert(lines == seq![body] + spec_split(render_rows(rest), '\n'));
        assert(lines[0] == body);
        assert(lines.drop_first() =~= spec_split(render_rows(rest), '\n'));
        assert(parse_row(body, lineno) == Ok::<ItemModel, LoadError>(m0));
        assert(!model_has_id(acc.items, m0.id));
        let acc2 = ListModel { items: acc.items.push(m0), next_id: bump(acc.next_id, m0.id) };
        assert forall|i: int| 0 <= i < rest.len() implies {
            &&& (#[trigger] rest[i]).id < u32::MAX
            &&& has_visible_char(rest[i].title)
            &&& no_char(rest[i].title, ',')
            &&& no_char(rest[i].title, '\n')
        } by {
            assert(rest[i] == ms[i + 1]);
        }
        assert forall|i: int, j: int| 0 <= i < j < rest.len() implies rest[i].id != rest[j].id by {
            assert(rest[i] == ms[i + 1]);
            assert(rest[j] == ms[j + 1]);
        }
        assert forall|i: int| 0 <= i < rest.len() implies !model_has_id(
            acc2.items,
            (#[trigger] rest[i]).id,
        ) by {
            assert(rest[i] == ms[i + 1]);
            if model_has_id(acc2.items, rest[i].id) {
                let j = choose|j: int|
                    0 <= j < acc2.items.len() && acc2.items[j].id == rest[i].id;
                if j < acc.items.len() {
                    assert(acc.items[j].id == rest[i].id);
                    assert(model_has_id(acc.items, ms[i + 1].id));
                } else {
                    assert(acc2.items[j] == m0);
                    assert(ms[0].id == ms[i + 1].id);
                }
            }
        }
        lemma_parse_render_rows(rest, acc2, lineno + 1);
        assert(parse_rows(lines, lineno, acc) == parse_rows(lines.drop_first(), lineno + 1, acc2));
        assert(acc2.items + rest =~= acc.items + ms);
    }
}

/// Round trip: saving any well-formed list whose titles hold neither a
/// comma nor a line feed, then loading the text written, reconstructs
/// exactly the same records — same ids, titles and flags, in the same
/// order — with an id counter of at least 1 that again exceeds every id.
pub proof fn lemma_save_load_round_trip(l: TodoList)
    requires
        l.wf(),
        forall|i: int|
            0 <= i < l.items@.len() ==> no_char((#[trigger] l.items@[i]).title@, ',') && no_char(
                l.items@[i].title@,
                '\n',
            ),
    ensures
        ({
            let r = spec_load(render_list(models_of(l.items@)));
            &&& r matches Ok(lm)
            &&& lm.items == models_of(l.items@)
            &&& lm.next_id >= 1
            &&& forall|i: int| 0 <= i < lm.items.len() ==> (#[trigger] lm.items[i]).id < lm.next_id
        }),
{
    let ms = models_of(l.items@);
    let text = render_list(ms);
    lemma_header_facts();
    lemma_split_concat(header_chars(), render_rows(ms), '\n');
    let lines = spec_split(text, '\n');
    assert(lines == seq![header_chars()] + spec_split(render_rows(ms), '\n'));
    assert(lines[0] == header_chars());
    assert(spec_trim(lines[0]) == header_chars());
    assert(lines.drop_first() =~= spec_split(render_rows(ms), '\n'));
    assert forall|i: int| 0 <= i < ms.len() implies {
        &&& (#[trigger] ms[i]).id < u32::MAX
        &&& has_visible_char(ms[i].title)
        &&& no_char(ms[i].title, ',')
        &&& no_char(ms[i].title, '\n')
    } by {
        assert(ms[i] == l.items@[i].model());
        assert(l.items@[i].id < l.next_id);
        assert(l.items@[i].valid());
    }
    assert forall|i: int, j: int| 0 <= i < j < ms.len() implies ms[i].id != ms[j].id by {
        assert(ms[i] == l.items@[i].model());
        assert(ms[j] == l.items@[j].model());
    }
    let init = ListModel { items: Seq::empty(), next_id: 1 };
    lemma_parse_render_rows(ms, init, 2);
    assert(Seq::<ItemModel>::empty() + ms =~= ms);
    lemma_next_after(1, ms);
    assert(spec_load(text) == parse_rows(lines.drop_first(), 2, init));
}

} // verus!
