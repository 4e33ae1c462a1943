//! A JSON tree, printed as an indented file.
//!
//! Numbers print verbatim, so the bytes an archiver files are the bytes it was
//! given.

use crate::storage::canonical::{canonical_string, quoted};
use crate::storage::json::{Json, RawJson};
use vstd::prelude::*;

verus! {

/// Lines joined by a comma and a line break.
pub open spec fn joined_lines(rows: Seq<Seq<char>>) -> Seq<char>
    decreases rows.len(),
{
    if rows.len() == 0 {
        Seq::empty()
    } else if rows.len() == 1 {
        rows[0]
    } else {
        joined_lines(rows.drop_last()) + ",\n"@ + rows.last()
    }
}

/// The indentation one level further in.
pub open spec fn indented(pad: Seq<char>) -> Seq<char> {
    pad + "  "@
}

/// A value as it prints where the lines around it are indented by `pad`.
pub open spec fn pretty_at(t: Json, pad: Seq<char>) -> Seq<char>
    decreases t,
{
    match t {
        Json::Null => "null"@,
        Json::Bool(true) => "true"@,
        Json::Bool(false) => "false"@,
        Json::Number(token) => token,
        Json::Str(s) => quoted(s),
        Json::Array(items) => if items.len() == 0 {
            "[]"@
        } else {
            "[\n"@ + joined_lines(item_rows(items, indented(pad))) + "\n"@ + pad + "]"@
        },
        Json::Object(entries) => if entries.len() == 0 {
            "{}"@
        } else {
            "{\n"@ + joined_lines(entry_rows(entries, indented(pad))) + "\n"@ + pad + "}"@
        },
    }
}

/// The items of an array, each on its line.
pub open spec fn item_rows(items: Seq<Json>, pad: Seq<char>) -> Seq<Seq<char>>
    decreases items,
{
    Seq::new(
        items.len(),
        |i: int|
            if 0 <= i < items.len() {
                pad + pretty_at(items[i], pad)
            } else {
                Seq::empty()
            },
    )
}

/// The entries of an object, each on its line.
pub open spec fn entry_rows(entries: Seq<(Seq<char>, Json)>, pad: Seq<char>) -> Seq<Seq<char>>
    decreases entries,
{
    Seq::new(
        entries.len(),
        |i: int|
            if 0 <= i < entries.len() {
                pad + quoted(entries[i].0) + ": "@ + pretty_at(entries[i].1, pad)
            } else {
                Seq::empty()
            },
    )
}

/// A document as a file.
pub open spec fn pretty_text(t: Json) -> Seq<char> {
    pretty_at(t, ""@) + "\n"@
}

/// What one more line adds.
pub proof fn lemma_joined_lines_next(rows: Seq<Seq<char>>, n: int)
    requires
        0 <= n < rows.len(),
    ensures
        joined_lines(rows.take(n + 1)) == (if n == 0 {
            rows[0]
        } else {
            joined_lines(rows.take(n)) + ",\n"@ + rows[n]
        }),
{
    assert(rows.take(n + 1).drop_last() =~= rows.take(n));
}

impl RawJson {
    /// Print this back out as an indented JSON file, numbers verbatim.
    pub fn to_pretty(&self) -> (out: String)
        ensures
            out@ == pretty_text(self@),
    {
        let mut out: String = String::new();
        self.write_pretty("", &mut out);
        out.append("\n");
        assert(out@ =~= pretty_text(self@));
        out
    }

    fn write_pretty(&self, pad: &str, out: &mut String)
        ensures
            final(out)@ == old(out)@ + pretty_at(self@, pad@),
        decreases *self, 1int,
    {
        match self {
            RawJson::Null => out.append("null"),
            RawJson::Bool(b) => out.append(
                if *b {
                    "true"
                } else {
                    "false"
                },
            ),
            RawJson::Number(token) => out.append(token.as_str()),
            RawJson::Str(s) => out.append(canonical_string(s.as_str()).as_str()),
            RawJson::Array(items) => {
                if items.len() == 0 {
                    out.append("[]");
                } else {
                    self.write_items(pad, out);
                }
            },
            RawJson::Object(entries) => {
                if entries.len() == 0 {
                    out.append("{}");
                } else {
                    self.write_entries(pad, out);
                }
            },
        }
    }

    fn write_items(&self, pad: &str, out: &mut String)
        requires
            *self is Array,
            self->Array_0@.len() > 0,
        ensures
            final(out)@ == old(out)@ + pretty_at(self@, pad@),
        decreases *self, 0int,
    {
        let items = match self {
            RawJson::Array(items) => items,
            _ => return,
        };
        let mut inner: String = pad.to_owned();
        inner.append("  ");
        let ghost model = self@->Array_0;
        let ghost rows = item_rows(model, inner@);
        let ghost before = out@;
        out.append("[\n");
        assert(rows.take(0) =~= Seq::<Seq<char>>::empty());
        assert(out@ =~= before + "[\n"@ + joined_lines(rows.take(0)));
        let mut i: usize = 0;
        while i < items.len()
            invariant
                i <= items@.len(),
                *self is Array,
                *items == self->Array_0,
                model == self@->Array_0,
                rows == item_rows(model, inner@),
                out@ == before + "[\n"@ + joined_lines(rows.take(i as int)),
            decreases items@.len() - i,
        {
            if i > 0 {
                out.append(",\n");
            }
            out.append(inner.as_str());
            assert(model[i as int] == items@[i as int]@);
            items[i].write_pretty(inner.as_str(), out);
            proof {
                lemma_joined_lines_next(rows, i as int);
                assert(rows[i as int] == inner@ + pretty_at(model[i as int], inner@));
                assert(out@ =~= before + "[\n"@ + joined_lines(rows.take(i + 1)));
            }
            i = i + 1;
        }
        assert(rows.take(i as int) =~= rows);
        out.append("\n");
        out.append(pad);
        out.append("]");
        assert(out@ =~= before + pretty_at(self@, pad@));
    }

    fn write_entries(&self, pad: &str, out: &mut String)
        requires
            *self is Object,
            self->Object_0@.len() > 0,
        ensures
            final(out)@ == old(out)@ + pretty_at(self@, pad@),
        decreases *self, 0int,
    {
        let entries = match self {
            RawJson::Object(entries) => entries,
            _ => return,
        };
        let mut inner: String = pad.to_owned();
        inner.append("  ");
        let ghost model = self@->Object_0;
        let ghost rows = entry_rows(model, inner@);
        let ghost before = out@;
        out.append("{\n");
        assert(rows.take(0) =~= Seq::<Seq<char>>::empty());
        assert(out@ =~= before + "{\n"@ + joined_lines(rows.take(0)));
        let mut i: usize = 0;
        while i < entries.len()
            invariant
                i <= entries@.len(),
                *self is Object,
                *entries == self->Object_0,
                model == self@->Object_0,
                rows == entry_rows(model, inner@),
                out@ == before + "{\n"@ + joined_lines(rows.take(i as int)),
            decreases entries@.len() - i,
        {
            if i > 0 {
                out.append(",\n");
            }
            out.append(inner.as_str());
            out.append(canonical_string(entries[i].0.as_str()).as_str());
            out.append(": ");
            assert(model[i as int].1 == entries@[i as int].1@);
            entries[i].1.write_pretty(inner.as_str(), out);
            proof {
                lemma_joined_lines_next(rows, i as int);
                assert(rows[i as int] == inner@ + quoted(model[i as int].0) + ": "@ + pretty_at(
                    model[i as int].1,
                    inner@,
                ));
                assert(out@ =~= before + "{\n"@ + joined_lines(rows.take(i + 1)));
            }
            i = i + 1;
        }
        assert(rows.take(i as int) =~= rows);
        out.append("\n");
        out.append(pad);
        out.append("}");
        assert(out@ =~= before + pretty_at(self@, pad@));
    }
}

} // verus!
