//! Input bindings: which table is read from which location.
//!
//! The bindings of a run are written in one text, such as
//! `orders|s3://bucket/orders/;lineitem|s3://bucket/lineitem/`.

use vstd::prelude::*;
use crate::error::{Error, RunError};
use crate::table::{self, TableReference};
use crate::text;

verus! {

/// A table and the location that it is read from. `T` is the type of text: `String` in
/// running code, `Seq<char>` in contracts.
#[derive(Debug, PartialEq, Eq)]
pub struct InputBinding<T> {
    pub table_ref: TableReference<T>,
    pub location: T,
}

impl View for InputBinding<String> {
    type V = InputBinding<Seq<char>>;

    open spec fn view(&self) -> InputBinding<Seq<char>> {
        InputBinding { table_ref: self.table_ref@, location: self.location@ }
    }
}

/// The table text and the location of a binding: what stands before and after its first
/// `|`, the location beginning with `s3://`.
pub open spec fn binding_parts(raw: Seq<char>) -> Result<
    (Seq<char>, Seq<char>),
    RunError<Seq<char>>,
> {
    let at = text::position(raw, '|');
    let location = raw.skip(at + 1);
    if at == raw.len() {
        Err(RunError::InvalidBinding { raw })
    } else if !"s3://"@.is_prefix_of(location) {
        Err(RunError::NotS3Location { location })
    } else {
        Ok((raw.take(at), location))
    }
}

/// The binding that `raw` stands for.
pub open spec fn binding_of(raw: Seq<char>) -> Result<
    InputBinding<Seq<char>>,
    RunError<Seq<char>>,
> {
    match binding_parts(raw) {
        Ok((table, location)) => Ok(
            InputBinding { table_ref: table::parsed_table_reference(table), location },
        ),
        Err(error) => Err(error),
    }
}

/// The binding texts in `raw`: what the semicolons separate, without the blank ones.
pub open spec fn binding_items_of(raw: Seq<char>) -> Seq<Seq<char>> {
    filled(text::split_on(raw, ';'))
}

/// The items that are not blank.
pub open spec fn filled(items: Seq<Seq<char>>) -> Seq<Seq<char>> {
    items.filter(|item: Seq<char>| !text::is_blank(item))
}

/// The bindings that the items stand for, or the error of the first that is refused.
pub open spec fn bindings_from(items: Seq<Seq<char>>) -> Result<
    Seq<InputBinding<Seq<char>>>,
    RunError<Seq<char>>,
>
    decreases items.len(),
{
    if items.len() == 0 {
        Ok(seq![])
    } else {
        match bindings_from(items.drop_last()) {
            Err(error) => Err(error),
            Ok(bindings) => match binding_of(items.last()) {
                Err(error) => Err(error),
                Ok(binding) => Ok(bindings.push(binding)),
            },
        }
    }
}

/// The bindings that `raw` stands for.
pub open spec fn bindings_of(raw: Seq<char>) -> Result<
    Seq<InputBinding<Seq<char>>>,
    RunError<Seq<char>>,
> {
    bindings_from(binding_items_of(raw))
}

/// The views of a list of bindings.
pub open spec fn bindings_view(bindings: Seq<InputBinding<String>>) -> Seq<
    InputBinding<Seq<char>>,
> {
    bindings.map_values(|b: InputBinding<String>| b@)
}

/// Splits a binding at its first `|` into the table text and the location.
pub fn split_binding(raw: &str) -> (r: Result<(String, String), Error>)
    ensures
        match r {
            Ok((table, location)) => {
                &&& raw@ == table@ + seq!['|'] + location@
                &&& !table@.contains('|')
                &&& "s3://"@.is_prefix_of(location@)
            },
            Err(error) => {
                ||| !raw@.contains('|') && (error matches RunError::InvalidBinding { raw: refused }
                    && refused@ == raw@)
                ||| error matches RunError::NotS3Location { location }
                    && !"s3://"@.is_prefix_of(location@) && (exists|table: Seq<char>|
                    raw@ == #[trigger] (table + seq!['|']) + location@ && !table.contains('|'))
            },
        },
        match r {
            Ok((table, location)) => binding_parts(raw@) == Ok::<
                (Seq<char>, Seq<char>),
                RunError<Seq<char>>,
            >((table@, location@)),
            Err(error) => binding_parts(raw@) == Err::<
                (Seq<char>, Seq<char>),
                RunError<Seq<char>>,
            >(error@),
        },
{
    match text::find_char(raw, '|') {
        None => Err(RunError::InvalidBinding { raw: raw.to_owned() }),
        Some(at) => {
            proof {
                text::lemma_position(raw@, '|');
            }
            let n = raw.unicode_len();
            let table = raw.substring_char(0, at);
            let location = raw.substring_char(at + 1, n);
            assert(location@ =~= raw@.skip(at + 1));
            assert(table@ =~= raw@.take(at as int));
            assert(raw@ =~= (table@ + seq!['|']) + location@);
            if !text::starts_with(location, "s3://") {
                return Err(RunError::NotS3Location { location: location.to_owned() });
            }
            Ok((table.to_owned(), location.to_owned()))
        },
    }
}

/// Reads one binding.
///
/// A table text that is a plain lower-case name is bound under that very name.
pub fn parse_input(raw: &str) -> (r: Result<InputBinding<String>, Error>)
    ensures
        match r {
            Ok(binding) => {
                &&& "s3://"@.is_prefix_of(binding.location@)
                &&& exists|table: Seq<char>|
                    raw@ == #[trigger] (table + seq!['|']) + binding.location@ && !table.contains(
                        '|',
                    ) && binding.table_ref@ == table::parsed_table_reference(table)
            },
            Err(error) => {
                ||| !raw@.contains('|') && (error matches RunError::InvalidBinding { raw: refused }
                    && refused@ == raw@)
                ||| error matches RunError::NotS3Location { location }
                    && !"s3://"@.is_prefix_of(location@) && (exists|table: Seq<char>|
                    raw@ == #[trigger] (table + seq!['|']) + location@ && !table.contains('|'))
            },
        },
        match r {
            Ok(binding) => binding_of(raw@) == Ok::<
                InputBinding<Seq<char>>,
                RunError<Seq<char>>,
            >(binding@),
            Err(error) => binding_of(raw@) == Err::<
                InputBinding<Seq<char>>,
                RunError<Seq<char>>,
            >(error@),
        },
        r matches Ok(binding) ==> keeps_plain_name(raw@, binding@),
{
    match split_binding(raw) {
        Err(error) => Err(error),
        Ok((table, location)) => {
            let table_ref = table::parse_table_reference(table.as_str());
            assert(raw@ == (table@ + seq!['|']) + location@);
            Ok(InputBinding { table_ref, location })
        },
    }
}

/// The binding texts in `raw`, in order: what the semicolons separate, without the
/// blank ones.
pub fn binding_items(raw: &str) -> (items: Vec<String>)
    ensures
        text::texts(items@) == binding_items_of(raw@),
        items@.len() == binding_items_of(raw@).len(),
        forall|i: int| 0 <= i < items@.len() ==> #[trigger] items@[i]@ == binding_items_of(raw@)[i],
{
    let mut items: Vec<String> = Vec::new();
    let mut rest: &str = raw;
    assert(text::texts(items@) =~= seq![]);
    loop
        invariant
            text::texts(items@) + filled(text::split_on(rest@, ';'))
                == binding_items_of(raw@),
        decreases rest@.len(),
    {
        let n = rest.unicode_len();
        let end: usize = match text::find_char(rest, ';') {
            Some(at) => at,
            None => n,
        };
        let item = rest.substring_char(0, end);
        let ghost before = text::texts(items@);
        let ghost later = if end < n {
            text::split_on(rest@.skip(end + 1), ';')
        } else {
            seq![]
        };
        assert(item@ =~= rest@.take(end as int));
        assert(text::split_on(rest@, ';') =~= seq![item@] + later) by {
            assert(rest@.take(n as int) =~= rest@);
        }
        let skipped = text::blank(item);
        if !skipped {
            items.push(item.to_owned());
        }
        proof {
            lemma_filled_first(item@, later);
            assert(text::texts(items@) =~= before + filled(seq![item@]));
            assert(before + (filled(seq![item@]) + filled(later)) =~= (before + filled(
                seq![item@],
            )) + filled(later));
        }
        if end >= n {
            assert(filled(later) =~= seq![]);
            assert(text::texts(items@) + filled(later) =~= text::texts(items@));
            proof {
                text::law_texts_seen_as_they_stand(items@);
                assert forall|i: int| 0 <= i < items@.len() implies #[trigger] items@[i]@
                    == binding_items_of(raw@)[i] by {
                    assert(text::texts(items@)[i] == items@[i]@);
                }
            }
            return items;
        }
        rest = rest.substring_char(end + 1, n);
    }
}

/// Filtering a first item and the rest one after the other.
proof fn lemma_filled_first(item: Seq<char>, later: Seq<Seq<char>>)
    ensures
        filled(seq![item] + later) == filled(seq![item]) + filled(later),
        filled(seq![item]) == if text::is_blank(item) {
            seq![]
        } else {
            seq![item]
        },
        filled(seq![]) == Seq::<Seq<char>>::empty(),
{
    let pred = |item: Seq<char>| !text::is_blank(item);
    Seq::filter_distributes_over_add(seq![item], later, pred);
    reveal(Seq::filter);
    assert(seq![item].drop_last() =~= seq![]);
    assert(seq![item].last() == item);
    assert(Seq::<Seq<char>>::empty().filter(pred) =~= seq![]);
    assert(filled(seq![item]) =~= if text::is_blank(item) {
        seq![]
    } else {
        seq![item]
    });
}

/// A table text that is a plain lower-case name is bound under that very name.
pub open spec fn keeps_plain_name(raw: Seq<char>, binding: InputBinding<Seq<char>>) -> bool {
    binding_parts(raw) matches Ok((table, _)) ==> table::is_plain_name(table) ==> binding.table_ref
        == (TableReference::Bare { table })
}

/// Reads the bindings in `raw`, in order; the first binding that is refused ends it.
///
/// A table text that is a plain lower-case name is bound under that very name.
pub fn parse_inputs(raw: &str) -> (r: Result<Vec<InputBinding<String>>, Error>)
    ensures
        match r {
            Ok(bindings) => bindings_of(raw@) == Ok::<
                Seq<InputBinding<Seq<char>>>,
                RunError<Seq<char>>,
            >(bindings_view(bindings@)),
            Err(error) => bindings_of(raw@) == Err::<
                Seq<InputBinding<Seq<char>>>,
                RunError<Seq<char>>,
            >(error@),
        },
        r matches Ok(bindings) ==> (bindings_of(raw@) matches Ok(read) && {
            &&& bindings@.len() == read.len()
            &&& forall|i: int|
                0 <= i < read.len() ==> {
                    &&& (#[trigger] bindings@[i]).location@ == read[i].location
                    &&& bindings@[i].table_ref@ == read[i].table_ref
                }
        }),
        r matches Ok(bindings) ==> forall|i: int|
            0 <= i < bindings@.len() ==> keeps_plain_name(
                binding_items_of(raw@)[i],
                #[trigger] bindings@[i]@,
            ),
{
    let items = binding_items(raw);
    let ghost all = text::texts(items@);
    let mut bindings: Vec<InputBinding<String>> = Vec::new();
    let mut i: usize = 0;
    assert(all.take(0) =~= seq![]);
    assert(bindings_view(bindings@) =~= seq![]);
    while i < items.len()
        invariant
            i <= items.len(),
            all == text::texts(items@),
            all == binding_items_of(raw@),
            bindings_from(all.take(i as int)) == Ok::<
                Seq<InputBinding<Seq<char>>>,
                RunError<Seq<char>>,
            >(bindings_view(bindings@)),
            bindings@.len() == i,
            forall|j: int|
                0 <= j < i ==> keeps_plain_name(all[j], #[trigger] bindings@[j]@),
        decreases items.len() - i,
    {
        let ghost next = all.take(i + 1);
        assert(next.drop_last() =~= all.take(i as int));
        assert(next.last() == items@[i as int]@);
        match parse_input(items[i].as_str()) {
            Err(error) => {
                proof {
                    lemma_first_refusal(all, i + 1);
                }
                return Err(error);
            },
            Ok(binding) => {
                let ghost before = bindings_view(bindings@);
                bindings.push(binding);
                assert(bindings_view(bindings@) =~= before.push(binding@));
            },
        }
        i = i + 1;
    }
    assert(all.take(i as int) =~= all);
    proof {
        law_bindings_seen_as_they_stand(bindings@);
    }
    Ok(bindings)
}

/// Items after a refused one change nothing.
proof fn lemma_first_refusal(items: Seq<Seq<char>>, n: int)
    requires
        0 <= n <= items.len(),
        bindings_from(items.take(n)) is Err,
    ensures
        bindings_from(items) == bindings_from(items.take(n)),
    decreases items.len(),
{
    if n == items.len() {
        assert(items.take(n) =~= items);
    } else {
        assert(items.drop_last().take(n) =~= items.take(n));
        lemma_first_refusal(items.drop_last(), n);
    }
}

/// Two outcomes one after the other: the bindings of both, or the first error.
pub open spec fn followed_by(
    first: Result<Seq<InputBinding<Seq<char>>>, RunError<Seq<char>>>,
    second: Result<Seq<InputBinding<Seq<char>>>, RunError<Seq<char>>>,
) -> Result<Seq<InputBinding<Seq<char>>>, RunError<Seq<char>>> {
    match (first, second) {
        (Err(error), _) => Err(error),
        (Ok(_), Err(error)) => Err(error),
        (Ok(a), Ok(b)) => Ok(a + b),
    }
}

/// The bindings of two lists of items are those of the first and then those of the
/// second.
proof fn lemma_bindings_concatenation(a: Seq<Seq<char>>, b: Seq<Seq<char>>)
    ensures
        bindings_from(a + b) == followed_by(bindings_from(a), bindings_from(b)),
    decreases b.len(),
{
    if b.len() == 0 {
        assert(a + b =~= a);
        if let Ok(bindings) = bindings_from(a) {
            assert(bindings + seq![] =~= bindings);
        }
    } else {
        assert((a + b).drop_last() =~= a + b.drop_last());
        lemma_bindings_concatenation(a, b.drop_last());
        if let (Ok(x), Ok(y), Ok(z)) = (
            bindings_from(a),
            bindings_from(b.drop_last()),
            binding_of(b.last()),
        ) {
            assert((x + y).push(z) =~= x + y.push(z));
        }
    }
}

/// Success and failure item by item. All items are read exactly where none is refused,
/// each giving the binding at its place; otherwise the error is that of the first item
/// that is refused.
pub proof fn law_items_read_in_order(raw: Seq<char>)
    ensures
        bindings_of(raw) is Ok <==> forall|i: int|
            0 <= i < binding_items_of(raw).len() ==> binding_of(
                #[trigger] binding_items_of(raw)[i],
            ) is Ok,
        bindings_of(raw) matches Ok(bindings) ==> {
            &&& bindings.len() == binding_items_of(raw).len()
            &&& forall|i: int|
                0 <= i < bindings.len() ==> binding_of(binding_items_of(raw)[i]) == Ok::<
                    InputBinding<Seq<char>>,
                    RunError<Seq<char>>,
                >(#[trigger] bindings[i])
        },
        bindings_of(raw) matches Err(error) ==> exists|i: int|
            #![trigger binding_items_of(raw)[i]]
            {
                &&& 0 <= i < binding_items_of(raw).len()
                &&& binding_of(binding_items_of(raw)[i]) == Err::<
                    InputBinding<Seq<char>>,
                    RunError<Seq<char>>,
                >(error)
                &&& forall|j: int|
                    0 <= j < i ==> binding_of(#[trigger] binding_items_of(raw)[j]) is Ok
            },
{
    lemma_items_in_order(binding_items_of(raw));
}

proof fn lemma_items_in_order(items: Seq<Seq<char>>)
    ensures
        bindings_from(items) is Ok <==> forall|i: int|
            0 <= i < items.len() ==> binding_of(#[trigger] items[i]) is Ok,
        bindings_from(items) matches Ok(bindings) ==> {
            &&& bindings.len() == items.len()
            &&& forall|i: int|
                0 <= i < bindings.len() ==> binding_of(items[i]) == Ok::<
                    InputBinding<Seq<char>>,
                    RunError<Seq<char>>,
                >(#[trigger] bindings[i])
        },
        bindings_from(items) matches Err(error) ==> exists|i: int|
            #![trigger items[i]]
            {
                &&& 0 <= i < items.len()
                &&& binding_of(items[i]) == Err::<InputBinding<Seq<char>>, RunError<Seq<char>>>(
                    error,
                )
                &&& forall|j: int| 0 <= j < i ==> binding_of(#[trigger] items[j]) is Ok
            },
    decreases items.len(),
{
    if items.len() > 0 {
        let front = items.drop_last();
        lemma_items_in_order(front);
        assert forall|i: int| 0 <= i < front.len() implies front[i] == #[trigger] items[i] by {}
        assert(items.last() == items[items.len() - 1]);
        match bindings_from(front) {
            Err(error) => {
                let i = choose|i: int|
                    #![trigger front[i]]
                    {
                        &&& 0 <= i < front.len()
                        &&& binding_of(front[i]) == Err::<
                            InputBinding<Seq<char>>,
                            RunError<Seq<char>>,
                        >(error)
                        &&& forall|j: int| 0 <= j < i ==> binding_of(#[trigger] front[j]) is Ok
                    };
                assert(items[i] == front[i]);
                assert forall|j: int| 0 <= j < i implies binding_of(#[trigger] items[j]) is Ok by {
                    assert(items[j] == front[j]);
                }
            },
            Ok(bindings) => {
                assert forall|j: int| 0 <= j < front.len() implies binding_of(
                    #[trigger] items[j],
                ) is Ok by {
                    assert(items[j] == front[j]);
                }
                if let Ok(last) = binding_of(items.last()) {
                    let all = bindings.push(last);
                    assert forall|i: int| 0 <= i < all.len() implies binding_of(items[i]) == Ok::<
                        InputBinding<Seq<char>>,
                        RunError<Seq<char>>,
                    >(#[trigger] all[i]) by {
                        if i < front.len() {
                            assert(all[i] == bindings[i]);
                            assert(items[i] == front[i]);
                        }
                    }
                }
            },
        }
    }
}

/// Two texts with a semicolon between them hold the bindings of the first and then
/// those of the second; an error in the first comes before one in the second.
pub proof fn law_inputs_concatenate(a: Seq<char>, b: Seq<char>)
    ensures
        bindings_of(a + seq![';'] + b) == followed_by(bindings_of(a), bindings_of(b)),
{
    let pred = |item: Seq<char>| !text::is_blank(item);
    text::lemma_split_concatenation(a, b, ';');
    Seq::filter_distributes_over_add(text::split_on(a, ';'), text::split_on(b, ';'), pred);
    lemma_bindings_concatenation(binding_items_of(a), binding_items_of(b));
}

/// A text of white space and semicolons holds no binding and is no error.
pub proof fn law_blank_inputs(raw: Seq<char>)
    requires
        forall|i: int|
            0 <= i < raw.len() ==> text::is_white_space(#[trigger] raw[i]) || raw[i] == ';',
    ensures
        bindings_of(raw) == Ok::<Seq<InputBinding<Seq<char>>>, RunError<Seq<char>>>(seq![]),
{
    lemma_blank_items(raw);
}

proof fn lemma_blank_items(raw: Seq<char>)
    requires
        forall|i: int|
            0 <= i < raw.len() ==> text::is_white_space(#[trigger] raw[i]) || raw[i] == ';',
    ensures
        binding_items_of(raw) == Seq::<Seq<char>>::empty(),
    decreases raw.len(),
{
    let at = text::position(raw, ';');
    text::lemma_position(raw, ';');
    let item = raw.take(at);
    assert(text::is_blank(item)) by {
        assert forall|i: int| 0 <= i < item.len() implies text::is_white_space(
            #[trigger] item[i],
        ) by {
            assert(item[i] == raw[i]);
        }
    }
    if at < raw.len() {
        let rest = raw.skip(at + 1);
        assert forall|i: int| 0 <= i < rest.len() implies text::is_white_space(#[trigger] rest[i])
            || rest[i] == ';' by {
            assert(rest[i] == raw[at + 1 + i]);
        }
        lemma_blank_items(rest);
        lemma_filled_first(item, text::split_on(rest, ';'));
    } else {
        assert(item =~= raw);
        lemma_filled_first(item, seq![]);
        assert(seq![raw] + seq![] =~= seq![raw]);
    }
}

/// White space and semicolons after or before the bindings change nothing.
pub proof fn law_surrounding_blanks(raw: Seq<char>, blanks: Seq<char>)
    requires
        forall|i: int|
            0 <= i < blanks.len() ==> text::is_white_space(#[trigger] blanks[i]) || blanks[i]
                == ';',
    ensures
        bindings_of(raw + seq![';'] + blanks) == bindings_of(raw),
        bindings_of(blanks + seq![';'] + raw) == bindings_of(raw),
{
    law_blank_inputs(blanks);
    law_inputs_concatenate(raw, blanks);
    law_inputs_concatenate(blanks, raw);
    if let Ok(bindings) = bindings_of(raw) {
        assert(bindings + seq![] =~= bindings);
        assert(seq![] + bindings =~= bindings);
    }
}

/// A binding as it is written.
pub open spec fn written(table: Seq<char>, location: Seq<char>) -> Seq<char> {
    table + seq!['|'] + location
}

/// A table text and a location that can be written as a binding.
pub open spec fn writable(table: Seq<char>, location: Seq<char>) -> bool {
    &&& !table.contains('|')
    &&& !table.contains(';')
    &&& "s3://"@.is_prefix_of(location)
    &&& !location.contains(';')
}

/// A written binding is read back as the table text's reference and the location, of
/// which a further `|` is a part.
pub proof fn law_written_binding_read_back(table: Seq<char>, location: Seq<char>)
    requires
        !table.contains('|'),
        "s3://"@.is_prefix_of(location),
    ensures
        binding_of(written(table, location)) == Ok::<
            InputBinding<Seq<char>>,
            RunError<Seq<char>>,
        >(InputBinding { table_ref: table::parsed_table_reference(table), location }),
{
    let raw = written(table, location);
    text::lemma_position_unique(raw, '|', table.len() as int);
    assert(raw.take(table.len() as int) =~= table);
    assert(raw.skip(table.len() as int + 1) =~= location);
}

/// Bindings written with semicolons between them are read back, all of them and in
/// order.
pub proof fn law_written_inputs_read_back(bindings: Seq<(Seq<char>, Seq<char>)>)
    requires
        forall|i: int|
            0 <= i < bindings.len() ==> writable((#[trigger] bindings[i]).0, bindings[i].1),
    ensures
        bindings_of(
            text::join(bindings.map_values(|b: (Seq<char>, Seq<char>)| written(b.0, b.1)), ';'),
        ) == Ok::<Seq<InputBinding<Seq<char>>>, RunError<Seq<char>>>(
            bindings.map_values(
                |b: (Seq<char>, Seq<char>)|
                    InputBinding {
                        table_ref: table::parsed_table_reference(b.0),
                        location: b.1,
                    },
            ),
        ),
{
    let items = bindings.map_values(|b: (Seq<char>, Seq<char>)| written(b.0, b.1));
    let read = bindings.map_values(
        |b: (Seq<char>, Seq<char>)|
            InputBinding { table_ref: table::parsed_table_reference(b.0), location: b.1 },
    );
    let raw = text::join(items, ';');
    if items.len() == 0 {
        law_blank_inputs(raw);
        assert(read =~= seq![]);
    } else {
        assert forall|i: int| 0 <= i < items.len() implies !(#[trigger] items[i]).contains(';')
            && !text::is_blank(items[i]) && binding_of(items[i]) == Ok::<
            InputBinding<Seq<char>>,
            RunError<Seq<char>>,
        >(read[i]) by {
            let (table, location) = bindings[i];
            law_written_binding_read_back(table, location);
            assert(items[i][table.len() as int] == '|');
            if items[i].contains(';') {
                let j = choose|j: int| 0 <= j < items[i].len() && items[i][j] == ';';
                if j < table.len() {
                    assert(table[j] == ';');
                } else {
                    assert(location[j - table.len() - 1] == ';');
                }
            }
        }
        text::lemma_join_split(items, ';');
        lemma_all_filled(items);
        lemma_items_in_order(items);
        if let Ok(found) = bindings_from(items) {
            assert forall|i: int| 0 <= i < found.len() implies found[i] == read[i] by {
                assert(binding_of(items[i]) is Ok);
            }
            assert(found =~= read);
        }
    }
}

proof fn lemma_all_filled(items: Seq<Seq<char>>)
    requires
        forall|i: int| 0 <= i < items.len() ==> !text::is_blank(#[trigger] items[i]),
    ensures
        filled(items) == items,
    decreases items.len(),
{
    reveal(Seq::filter);
    if items.len() > 0 {
        let front = items.drop_last();
        assert forall|i: int| 0 <= i < front.len() implies !text::is_blank(#[trigger] front[i]) by {
            assert(front[i] == items[i]);
        }
        lemma_all_filled(front);
        assert(!text::is_blank(items[items.len() - 1]));
        assert(front.push(items.last()) =~= items);
    }
}

/// Every binding that is read has a location that begins with `s3://` and holds no
/// semicolon.
pub proof fn law_bound_locations(raw: Seq<char>)
    ensures
        bindings_of(raw) matches Ok(bindings) ==> forall|i: int|
            #![trigger bindings[i]]
            0 <= i < bindings.len() ==> "s3://"@.is_prefix_of(bindings[i].location)
                && !bindings[i].location.contains(';'),
{
    if let Ok(bindings) = bindings_of(raw) {
        let pieces = text::split_on(raw, ';');
        let items = binding_items_of(raw);
        let pred = |item: Seq<char>| !text::is_blank(item);
        law_items_read_in_order(raw);
        text::lemma_split_join(raw, ';');
        assert forall|i: int|
            #![trigger bindings[i]]
            0 <= i < bindings.len() implies "s3://"@.is_prefix_of(bindings[i].location)
            && !bindings[i].location.contains(';') by {
            assert(items.contains(items[i]));
            pieces.lemma_filter_contains_rev(pred, items[i]);
            let k = choose|k: int| 0 <= k < pieces.len() && pieces[k] == items[i];
            assert(!pieces[k].contains(';'));
            let at = text::position(items[i], '|');
            text::lemma_position(items[i], '|');
            let location = bindings[i].location;
            assert(location == items[i].skip(at + 1));
            if location.contains(';') {
                let j = choose|j: int| 0 <= j < location.len() && location[j] == ';';
                assert(items[i][at + 1 + j] == ';');
            }
        }
    }
}

/// Bindings are seen as they stand: as many, each with its own reference and location.
pub proof fn law_bindings_seen_as_they_stand(bindings: Seq<InputBinding<String>>)
    ensures
        bindings_view(bindings).len() == bindings.len(),
        forall|i: int|
            0 <= i < bindings.len() ==> {
                &&& (#[trigger] bindings_view(bindings)[i]).table_ref == bindings[i].table_ref@
                &&& bindings_view(bindings)[i].location == bindings[i].location@
            },
{
}

/// One binding, read from its own characters. A text with a bar is a table text without
/// a bar, the bar and a location: the location is kept to the letter and decides whether
/// the binding is accepted. A text without a bar is refused and quoted.
pub proof fn law_reading_one_binding(raw: Seq<char>, table: Seq<char>, location: Seq<char>)
    ensures
        !raw.contains('|') ==> binding_of(raw) == Err::<
            InputBinding<Seq<char>>,
            RunError<Seq<char>>,
        >(RunError::InvalidBinding { raw }),
        raw == table + seq!['|'] + location && !table.contains('|') ==> binding_of(raw) == (
        if "s3://"@.is_prefix_of(location) {
            Ok::<InputBinding<Seq<char>>, RunError<Seq<char>>>(
                InputBinding { table_ref: table::parsed_table_reference(table), location },
            )
        } else {
            Err(RunError::NotS3Location { location })
        }),
        raw == table + seq!['|'] + location && !table.contains('|') ==> binding_parts(raw) == (
        if "s3://"@.is_prefix_of(location) {
            Ok::<(Seq<char>, Seq<char>), RunError<Seq<char>>>((table, location))
        } else {
            Err(RunError::NotS3Location { location })
        }),
{
    if !raw.contains('|') {
        text::lemma_position_unique(raw, '|', raw.len() as int);
    }
    if raw == table + seq!['|'] + location && !table.contains('|') {
        text::lemma_position_unique(raw, '|', table.len() as int);
        assert(raw.take(table.len() as int) =~= table);
        assert(raw.skip(table.len() as int + 1) =~= location);
    }
}

/// A text without a semicolon is one item, kept to the letter, if it holds anything but
/// white space, and none otherwise.
pub proof fn law_only_white_space_is_skipped(item: Seq<char>)
    requires
        !item.contains(';'),
    ensures
        (forall|i: int| 0 <= i < item.len() ==> text::is_white_space(#[trigger] item[i]))
            ==> binding_items_of(item) == Seq::<Seq<char>>::empty(),
        (exists|i: int| 0 <= i < item.len() && !text::is_white_space(#[trigger] item[i]))
            ==> binding_items_of(item) == seq![item],
{
    text::lemma_split_single(item, ';');
    lemma_filled_first(item, seq![]);
    assert(seq![item] + Seq::<Seq<char>>::empty() =~= seq![item]);
}

/// The items of two texts with a semicolon between them are those of the first and then
/// those of the second.
pub proof fn law_items_concatenate(a: Seq<char>, b: Seq<char>)
    ensures
        binding_items_of(a + seq![';'] + b) == binding_items_of(a) + binding_items_of(b),
{
    let pred = |item: Seq<char>| !text::is_blank(item);
    text::lemma_split_concatenation(a, b, ';');
    Seq::filter_distributes_over_add(text::split_on(a, ';'), text::split_on(b, ';'), pred);
}

/// A text without a semicolon that holds anything but white space stands for the one
/// binding that it is, or is refused as that binding is; it is never passed over.
pub proof fn law_one_item_one_binding(item: Seq<char>)
    requires
        !item.contains(';'),
        exists|i: int| 0 <= i < item.len() && !text::is_white_space(#[trigger] item[i]),
    ensures
        binding_of(item) matches Ok(binding) ==> bindings_of(item) == Ok::<
            Seq<InputBinding<Seq<char>>>,
            RunError<Seq<char>>,
        >(seq![binding]),
        binding_of(item) matches Err(error) ==> bindings_of(item) == Err::<
            Seq<InputBinding<Seq<char>>>,
            RunError<Seq<char>>,
        >(error),
{
    law_only_white_space_is_skipped(item);
    let items = seq![item];
    assert(items.drop_last() =~= seq![]);
    assert(items.last() == item);
    assert(bindings_from(items.drop_last()) == Ok::<
        Seq<InputBinding<Seq<char>>>,
        RunError<Seq<char>>,
    >(seq![]));
    if let Ok(binding) = binding_of(item) {
        assert(Seq::<InputBinding<Seq<char>>>::empty().push(binding) =~= seq![binding]);
    }
}

/// What a text holds is what its parts at a semicolon hold: where both are accepted, the
/// bindings of the first and then those of the second; otherwise the error of the first
/// part that is refused.
pub proof fn law_parts_at_a_semicolon(a: Seq<char>, b: Seq<char>)
    ensures
        bindings_of(a) matches Err(error) ==> bindings_of(a + seq![';'] + b) == Err::<
            Seq<InputBinding<Seq<char>>>,
            RunError<Seq<char>>,
        >(error),
        bindings_of(a) is Ok ==> (bindings_of(b) matches Err(error) ==> bindings_of(
            a + seq![';'] + b,
        ) == Err::<Seq<InputBinding<Seq<char>>>, RunError<Seq<char>>>(error)),
        bindings_of(a) matches Ok(x) ==> (bindings_of(b) matches Ok(y) ==> bindings_of(
            a + seq![';'] + b,
        ) == Ok::<Seq<InputBinding<Seq<char>>>, RunError<Seq<char>>>(x + y)),
{
    law_inputs_concatenate(a, b);
}

/// A mistyped binding is never dropped: a piece between semicolons that holds anything but
/// white space and no bar refuses the whole text, wherever it stands in it.
pub proof fn law_mistyped_binding_refuses_the_run(
    before: Seq<char>,
    piece: Seq<char>,
    after: Seq<char>,
)
    requires
        !piece.contains(';'),
        !piece.contains('|'),
        exists|i: int| 0 <= i < piece.len() && !text::is_white_space(#[trigger] piece[i]),
    ensures
        bindings_of(piece) == Err::<Seq<InputBinding<Seq<char>>>, RunError<Seq<char>>>(
            RunError::InvalidBinding { raw: piece },
        ),
        bindings_of(piece + seq![';'] + after) == Err::<
            Seq<InputBinding<Seq<char>>>,
            RunError<Seq<char>>,
        >(RunError::InvalidBinding { raw: piece }),
        bindings_of(before + seq![';'] + piece) is Err,
        bindings_of(before + seq![';'] + (piece + seq![';'] + after)) is Err,
        bindings_of(before) is Ok ==> bindings_of(before + seq![';'] + (piece + seq![';'] + after))
            == Err::<Seq<InputBinding<Seq<char>>>, RunError<Seq<char>>>(
            RunError::InvalidBinding { raw: piece },
        ),
{
    law_reading_one_binding(piece, seq![], seq![]);
    law_one_item_one_binding(piece);
    law_parts_at_a_semicolon(piece, after);
    law_parts_at_a_semicolon(before, piece);
    law_parts_at_a_semicolon(before, piece + seq![';'] + after);
}

} // verus!
