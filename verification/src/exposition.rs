//! The text exposition format, and the encoder that writes a snapshot in it.
//!
//! The text is made of lines, each ended by a line feed. A family with at
//! least one counter gives a `# HELP` line, a `# TYPE` line and one line per
//! counter; a family without counters gives nothing.

use crate::model::{family_views, texts, FamilyView, Metric, MetricFamily, MetricView};
use crate::registry::{
    capped, counted, has_counter, incremented, lemma_increments_add_up, saturating_sum, total,
    value_at, with_value, CounterHandle, Snapshot,
};
use crate::text::{
    decimal, escaped, joined, lemma_decimal_is_injective, lemma_escaped_ends_at_quote,
    lemma_joined_front, lemma_strip_prefix, push_char, push_decimal, push_escaped,
};
use vstd::prelude::*;
use vstd::seq_lib::lemma_flatten_concat;
use vstd::string::StringExecFns;

verus! {

/// `# HELP <name> <help>`, the help text escaped.
pub open spec fn help_line(name: Seq<char>, help: Seq<char>) -> Seq<char> {
    "# HELP "@ + name + seq![' '] + escaped(help, false) + seq!['\n']
}

/// `# TYPE <name> counter`.
pub open spec fn type_line(name: Seq<char>) -> Seq<char> {
    "# TYPE "@ + name + " counter"@ + seq!['\n']
}

/// `<key>="<value>"`, the value escaped.
pub open spec fn label_pair(key: Seq<char>, value: Seq<char>) -> Seq<char> {
    key + seq!['=', '"'] + escaped(value, true) + seq!['"']
}

/// One pair per label key, in the order of the keys.
pub open spec fn label_pairs(keys: Seq<Seq<char>>, values: Seq<Seq<char>>) -> Seq<Seq<char>>
    recommends
        keys.len() == values.len(),
{
    Seq::new(keys.len(), |i: int| label_pair(keys[i], values[i]))
}

/// The pairs between braces, with commas between them; nothing at all for a
/// counter without labels.
pub open spec fn label_block(keys: Seq<Seq<char>>, values: Seq<Seq<char>>) -> Seq<char>
    recommends
        keys.len() == values.len(),
{
    if keys.len() == 0 {
        Seq::empty()
    } else {
        seq!['{'] + joined(label_pairs(keys, values), seq![',']) + seq!['}']
    }
}

/// `<name>{<labels>} <value>`, the value in decimal notation.
pub open spec fn sample_line(name: Seq<char>, keys: Seq<Seq<char>>, metric: MetricView) -> Seq<
    char,
> {
    name + label_block(keys, metric.labels) + seq![' '] + decimal(metric.value as nat) + seq!['\n']
}

/// One line per counter of the family, in the order of the counters.
pub open spec fn sample_lines(family: FamilyView) -> Seq<Seq<char>> {
    Seq::new(
        family.metrics.len(),
        |j: int| sample_line(family.name, family.label_keys, family.metrics[j]),
    )
}

/// The lines of one family: its two header lines and its counters' lines, or
/// nothing where it has no counter.
pub open spec fn family_lines(family: FamilyView) -> Seq<Seq<char>> {
    if family.metrics.len() == 0 {
        Seq::empty()
    } else {
        seq![help_line(family.name, family.help), type_line(family.name)] + sample_lines(family)
    }
}

/// The lines of each family, family by family.
pub open spec fn blocks(families: Seq<FamilyView>) -> Seq<Seq<Seq<char>>> {
    Seq::new(families.len(), |i: int| family_lines(families[i]))
}

/// All lines of the text, in order.
pub open spec fn lines(families: Seq<FamilyView>) -> Seq<Seq<char>> {
    blocks(families).flatten()
}

/// The whole text: its lines one after the other.
pub open spec fn exposition(families: Seq<FamilyView>) -> Seq<char> {
    lines(families).flatten()
}

/// The text of the families with one more family is the text of the
/// families followed by the lines of that one.
pub proof fn lemma_exposition_push(families: Seq<FamilyView>, family: FamilyView)
    ensures
        lines(families.push(family)) == lines(families) + family_lines(family),
        exposition(families.push(family)) == exposition(families) + family_lines(
            family,
        ).flatten(),
{
    broadcast use Seq::lemma_flatten_push;

    assert(blocks(families.push(family)) =~= blocks(families).push(family_lines(family)));
    lemma_flatten_concat(lines(families), family_lines(family));
}

fn push_label_block(out: &mut String, keys: &Vec<String>, values: &Vec<String>)
    requires
        keys.len() == values.len(),
    ensures
        final(out)@ == old(out)@ + label_block(texts(keys@), texts(values@)),
{
    let ghost pairs = label_pairs(texts(keys@), texts(values@));
    if keys.len() == 0 {
        assert(out@ =~= old(out)@ + label_block(texts(keys@), texts(values@)));
        return ;
    }
    push_char(out, '{');
    let mut i: usize = 0;
    while i < keys.len()
        invariant
            i <= keys.len(),
            keys.len() == values.len(),
            pairs == label_pairs(texts(keys@), texts(values@)),
            out@ == old(out)@ + seq!['{'] + joined(pairs.take(i as int), seq![',']),
        decreases keys.len() - i,
    {
        let ghost before = out@;
        if i > 0 {
            push_char(out, ',');
        }
        out.append(keys[i].as_str());
        push_char(out, '=');
        push_char(out, '"');
        push_escaped(out, values[i].as_str(), true);
        push_char(out, '"');
        proof {
            let done = pairs.take(i + 1);
            assert(done.drop_last() =~= pairs.take(i as int));
            assert(done.last() == label_pair(keys@[i as int]@, values@[i as int]@));
            if i > 0 {
                assert(out@ =~= before + seq![','] + done.last());
            } else {
                assert(joined(pairs.take(0), seq![',']) =~= Seq::<char>::empty());
                assert(out@ =~= before + done.last());
            }
            assert(out@ =~= old(out)@ + seq!['{'] + joined(done, seq![',']));
        }
        i += 1;
    }
    push_char(out, '}');
    proof {
        assert(pairs.take(keys.len() as int) =~= pairs);
        assert(out@ =~= old(out)@ + label_block(texts(keys@), texts(values@)));
    }
}

fn push_sample_line(out: &mut String, name: &String, keys: &Vec<String>, metric: &Metric)
    requires
        metric.labels.len() == keys.len(),
    ensures
        final(out)@ == old(out)@ + sample_line(name@, texts(keys@), metric@),
{
    out.append(name.as_str());
    push_label_block(out, keys, &metric.labels);
    push_char(out, ' ');
    push_decimal(out, metric.value);
    push_char(out, '\n');
    assert(out@ =~= old(out)@ + sample_line(name@, texts(keys@), metric@));
}

fn push_family(out: &mut String, family: &MetricFamily)
    requires
        family@.well_formed(),
    ensures
        final(out)@ == old(out)@ + family_lines(family@).flatten(),
{
    broadcast use Seq::lemma_flatten_push;

    if family.metrics.len() == 0 {
        assert(family_lines(family@) =~= Seq::<Seq<char>>::empty());
        assert(out@ =~= old(out)@ + family_lines(family@).flatten());
        return ;
    }
    let ghost head = seq![help_line(family@.name, family@.help), type_line(family@.name)];
    let ghost tail = sample_lines(family@);
    out.append("# HELP ");
    out.append(family.name.as_str());
    push_char(out, ' ');
    push_escaped(out, family.help.as_str(), false);
    push_char(out, '\n');
    out.append("# TYPE ");
    out.append(family.name.as_str());
    out.append(" counter");
    push_char(out, '\n');
    proof {
        assert(head =~= Seq::<Seq<char>>::empty().push(head[0]).push(head[1]));
        assert(Seq::<Seq<char>>::empty().flatten() =~= Seq::<char>::empty());
        assert(head.flatten() =~= head[0] + head[1]);
        assert(tail.take(0) =~= Seq::<Seq<char>>::empty());
        assert(out@ =~= old(out)@ + head.flatten() + tail.take(0).flatten());
    }
    let mut j: usize = 0;
    while j < family.metrics.len()
        invariant
            j <= family.metrics.len(),
            family@.well_formed(),
            tail == sample_lines(family@),
            out@ == old(out)@ + head.flatten() + tail.take(j as int).flatten(),
        decreases family.metrics.len() - j,
    {
        assert(family@.metrics[j as int] == family.metrics@[j as int]@);
        assert(family@.metrics[j as int].labels.len() == family@.label_keys.len());
        push_sample_line(out, &family.name, &family.label_keys, &family.metrics[j]);
        proof {
            assert(tail[j as int] == sample_line(
                family.name@,
                texts(family.label_keys@),
                family.metrics@[j as int]@,
            ));
            assert(tail.take(j + 1) =~= tail.take(j as int).push(tail[j as int]));
            tail.take(j as int).lemma_flatten_push(tail[j as int]);
            assert(out@ =~= old(out)@ + head.flatten() + tail.take(j + 1).flatten());
        }
        j += 1;
    }
    proof {
        assert(tail.take(family.metrics.len() as int) =~= tail);
        lemma_flatten_concat(head, tail);
        assert(out@ =~= old(out)@ + family_lines(family@).flatten());
    }
}

/// Writes a snapshot in the text exposition format.
pub fn encode(snapshot: &Snapshot) -> (text: String)
    ensures
        text@ == exposition(snapshot@),
{
    let families = snapshot.families();
    let ghost views = family_views(families@);
    let mut text = String::new();
    let mut i: usize = 0;
    proof {
        assert(views.take(0) =~= Seq::<FamilyView>::empty());
        assert(blocks(views.take(0)) =~= Seq::<Seq<Seq<char>>>::empty());
        assert(lines(views.take(0)) =~= Seq::<Seq<char>>::empty());
        assert(text@ =~= exposition(views.take(0)));
    }
    while i < families.len()
        invariant
            i <= families.len(),
            views == family_views(families@),
            crate::model::well_formed(views),
            text@ == exposition(views.take(i as int)),
        decreases families.len() - i,
    {
        assert(views[i as int].well_formed());
        push_family(&mut text, &families[i]);
        proof {
            assert(views.take(i + 1) =~= views.take(i as int).push(views[i as int]));
            lemma_exposition_push(views.take(i as int), views[i as int]);
        }
        i += 1;
    }
    assert(views.take(families.len() as int) =~= views);
    text
}

/// The text of two runs of families, one after the other, is the text of
/// the first followed by the text of the second.
pub proof fn lemma_exposition_concat(first: Seq<FamilyView>, second: Seq<FamilyView>)
    ensures
        lines(first + second) == lines(first) + lines(second),
        exposition(first + second) == exposition(first) + exposition(second),
{
    assert(blocks(first + second) =~= blocks(first) + blocks(second));
    lemma_flatten_concat(blocks(first), blocks(second));
    lemma_flatten_concat(lines(first), lines(second));
}

/// The line of a counter.
pub open spec fn line_of(families: Seq<FamilyView>, counter: CounterHandle) -> Seq<char>
    recommends
        has_counter(families, counter),
{
    let family = families[counter.family as int];
    sample_line(family.name, family.label_keys, family.metrics[counter.metric as int])
}

/// The text in front of the line of a counter: the families before its own,
/// the header of its family, and the lines of the counters before it.
pub open spec fn text_before(families: Seq<FamilyView>, counter: CounterHandle) -> Seq<char>
    recommends
        has_counter(families, counter),
{
    let family = families[counter.family as int];
    exposition(families.take(counter.family as int)) + help_line(family.name, family.help)
        + type_line(family.name) + sample_lines(family).take(counter.metric as int).flatten()
}

/// The text behind the line of a counter: the lines of the counters after
/// it, and the families after its own.
pub open spec fn text_after(families: Seq<FamilyView>, counter: CounterHandle) -> Seq<char>
    recommends
        has_counter(families, counter),
{
    let family = families[counter.family as int];
    sample_lines(family).skip(counter.metric + 1).flatten() + exposition(
        families.skip(counter.family + 1),
    )
}

/// The text is the text of the families before the `f`-th, the lines of
/// that family, and the text of the families after it.
pub proof fn lemma_exposition_around_family(families: Seq<FamilyView>, f: int)
    requires
        0 <= f < families.len(),
    ensures
        exposition(families) == exposition(families.take(f)) + family_lines(
            families[f],
        ).flatten() + exposition(families.skip(f + 1)),
{
    let family = families[f];
    assert(families =~= families.take(f).push(family) + families.skip(f + 1));
    lemma_exposition_concat(families.take(f).push(family), families.skip(f + 1));
    lemma_exposition_push(families.take(f), family);
}

/// The lines of a family with counters, one after the other: the two
/// header lines, then the lines of the counters.
pub proof fn lemma_family_lines_flatten(family: FamilyView)
    requires
        family.metrics.len() > 0,
    ensures
        family_lines(family).flatten() == help_line(family.name, family.help) + type_line(
            family.name,
        ) + sample_lines(family).flatten(),
{
    let head = seq![help_line(family.name, family.help), type_line(family.name)];
    lemma_flatten_concat(head, sample_lines(family));
    assert(head =~= Seq::<Seq<char>>::empty().push(head[0]).push(head[1]));
    Seq::<Seq<char>>::empty().lemma_flatten_push(head[0]);
    Seq::<Seq<char>>::empty().push(head[0]).lemma_flatten_push(head[1]);
    assert(Seq::<Seq<char>>::empty().flatten() =~= Seq::<char>::empty());
    assert(head.flatten() =~= head[0] + head[1]);
}

/// Lines one after the other: those before the `m`-th, the `m`-th, and
/// those after it.
pub proof fn lemma_flatten_around(all: Seq<Seq<char>>, m: int)
    requires
        0 <= m < all.len(),
    ensures
        all.flatten() == all.take(m).flatten() + all[m] + all.skip(m + 1).flatten(),
{
    assert(all =~= all.take(m).push(all[m]) + all.skip(m + 1));
    lemma_flatten_concat(all.take(m).push(all[m]), all.skip(m + 1));
    all.take(m).lemma_flatten_push(all[m]);
}

/// Every counter has its line in the text, between what stands before it
/// and what stands after it.
pub proof fn lemma_exposition_around_counter(families: Seq<FamilyView>, counter: CounterHandle)
    requires
        has_counter(families, counter),
    ensures
        exposition(families) == text_before(families, counter) + line_of(families, counter)
            + text_after(families, counter),
{
    let f = counter.family as int;
    let m = counter.metric as int;
    let family = families[f];
    lemma_exposition_around_family(families, f);
    lemma_family_lines_flatten(family);
    lemma_flatten_around(sample_lines(family), m);
    let first = exposition(families.take(f));
    let last = exposition(families.skip(f + 1));
    let head = help_line(family.name, family.help) + type_line(family.name);
    let front = sample_lines(family).take(m).flatten();
    let back = sample_lines(family).skip(m + 1).flatten();
    let line = line_of(families, counter);
    assert(sample_lines(family)[m] == line);
    assert(exposition(families) == first + (head + (front + line + back)) + last);
    assert(text_before(families, counter) == first + help_line(family.name, family.help)
        + type_line(family.name) + front);
    assert(text_after(families, counter) == back + last);
    assert(first + (head + (front + line + back)) + last =~= first + help_line(
        family.name,
        family.help,
    ) + type_line(family.name) + front + line + (back + last));
}

/// The line of a counter as it reads with another value.
pub open spec fn line_with(families: Seq<FamilyView>, counter: CounterHandle, value: u64) -> Seq<
    char,
>
    recommends
        has_counter(families, counter),
{
    let family = families[counter.family as int];
    sample_line(
        family.name,
        family.label_keys,
        MetricView { labels: family.metrics[counter.metric as int].labels, value },
    )
}

/// A new value for a counter rewrites its own line and no other character
/// of the text: what stands before the line and what stands after it stay
/// as they were.
pub proof fn lemma_value_changes_one_line(
    families: Seq<FamilyView>,
    counter: CounterHandle,
    value: u64,
)
    requires
        has_counter(families, counter),
    ensures
        exposition(with_value(families, counter, value)) == text_before(families, counter)
            + line_with(families, counter, value) + text_after(families, counter),
{
    let after = with_value(families, counter, value);
    let f = counter.family as int;
    let m = counter.metric as int;
    assert(after.take(f) =~= families.take(f));
    assert(after.skip(f + 1) =~= families.skip(f + 1));
    assert(sample_lines(after[f]).take(m) =~= sample_lines(families[f]).take(m));
    assert(sample_lines(after[f]).skip(m + 1) =~= sample_lines(families[f]).skip(m + 1));
    lemma_exposition_around_counter(after, counter);
}

/// Counting on a counter rewrites its own line and no other character of
/// the text, and the line shows the new value.
pub proof fn lemma_increment_changes_one_line(
    families: Seq<FamilyView>,
    counter: CounterHandle,
    amount: u64,
)
    requires
        has_counter(families, counter),
    ensures
        exposition(incremented(families, counter, amount)) == text_before(families, counter)
            + line_with(
            families,
            counter,
            saturating_sum(value_at(families, counter), amount),
        ) + text_after(families, counter),
{
    lemma_value_changes_one_line(
        families,
        counter,
        saturating_sum(value_at(families, counter), amount),
    );
}

/// A scrape after any sequence of increments shows them all: the line of
/// the counter reads what the counter stood at before plus the sum of the
/// amounts, or the largest value where that is beyond it, and the rest of
/// the text is as it was.
pub proof fn lemma_increments_show_in_text(
    families: Seq<FamilyView>,
    counter: CounterHandle,
    amounts: Seq<u64>,
)
    requires
        has_counter(families, counter),
    ensures
        exposition(counted(families, counter, amounts)) == text_before(families, counter)
            + line_with(
            families,
            counter,
            capped(value_at(families, counter) + total(amounts)),
        ) + text_after(families, counter),
{
    lemma_increments_add_up(families, counter, amounts);
    lemma_value_changes_one_line(
        families,
        counter,
        capped(value_at(families, counter) + total(amounts)),
    );
}

/// The pairs of a label block tell the label values: two blocks over the
/// same keys that agree up to and beyond their closing brace hold the same
/// values and go on alike.
pub proof fn lemma_label_pairs_determine_values(
    keys: Seq<Seq<char>>,
    a: Seq<Seq<char>>,
    b: Seq<Seq<char>>,
    x: Seq<char>,
    y: Seq<char>,
)
    requires
        keys.len() > 0,
        a.len() == keys.len(),
        b.len() == keys.len(),
        joined(label_pairs(keys, a), seq![',']) + seq!['}'] + x == joined(
            label_pairs(keys, b),
            seq![','],
        ) + seq!['}'] + y,
    ensures
        a == b,
        x == y,
    decreases keys.len(),
{
    let sep = seq![','];
    let pairs_a = label_pairs(keys, a);
    let pairs_b = label_pairs(keys, b);
    let left = joined(pairs_a, sep) + seq!['}'] + x;
    let right = joined(pairs_b, sep) + seq!['}'] + y;
    lemma_joined_front(pairs_a, sep);
    lemma_joined_front(pairs_b, sep);
    let prefix = keys[0] + seq!['=', '"'];
    if keys.len() == 1 {
        let rest_a = seq!['}'] + x;
        let rest_b = seq!['}'] + y;
        assert(left =~= prefix + (escaped(a[0], true) + seq!['"'] + rest_a));
        assert(right =~= prefix + (escaped(b[0], true) + seq!['"'] + rest_b));
        lemma_strip_prefix(
            prefix,
            escaped(a[0], true) + seq!['"'] + rest_a,
            escaped(b[0], true) + seq!['"'] + rest_b,
        );
        lemma_escaped_ends_at_quote(a[0], b[0], rest_a, rest_b);
        lemma_strip_prefix(seq!['}'], x, y);
        assert(a =~= b);
    } else {
        let more_a = joined(pairs_a.drop_first(), sep) + seq!['}'] + x;
        let more_b = joined(pairs_b.drop_first(), sep) + seq!['}'] + y;
        let rest_a = sep + more_a;
        let rest_b = sep + more_b;
        assert(left =~= prefix + (escaped(a[0], true) + seq!['"'] + rest_a));
        assert(right =~= prefix + (escaped(b[0], true) + seq!['"'] + rest_b));
        lemma_strip_prefix(
            prefix,
            escaped(a[0], true) + seq!['"'] + rest_a,
            escaped(b[0], true) + seq!['"'] + rest_b,
        );
        lemma_escaped_ends_at_quote(a[0], b[0], rest_a, rest_b);
        lemma_strip_prefix(sep, more_a, more_b);
        assert(pairs_a.drop_first() =~= label_pairs(keys.drop_first(), a.drop_first()));
        assert(pairs_b.drop_first() =~= label_pairs(keys.drop_first(), b.drop_first()));
        lemma_label_pairs_determine_values(
            keys.drop_first(),
            a.drop_first(),
            b.drop_first(),
            x,
            y,
        );
        assert(a =~= seq![a[0]] + a.drop_first());
        assert(b =~= seq![b[0]] + b.drop_first());
    }
}

/// A counter's line tells its label values and its value: within one
/// family, two counters with the same line are the same counter.
pub proof fn lemma_sample_line_determines_counter(
    name: Seq<char>,
    keys: Seq<Seq<char>>,
    first: MetricView,
    second: MetricView,
)
    requires
        first.labels.len() == keys.len(),
        second.labels.len() == keys.len(),
        sample_line(name, keys, first) == sample_line(name, keys, second),
    ensures
        first == second,
{
    let end_a = seq![' '] + decimal(first.value as nat) + seq!['\n'];
    let end_b = seq![' '] + decimal(second.value as nat) + seq!['\n'];
    let block_a = label_block(keys, first.labels);
    let block_b = label_block(keys, second.labels);
    assert(sample_line(name, keys, first) =~= name + (block_a + end_a));
    assert(sample_line(name, keys, second) =~= name + (block_b + end_b));
    lemma_strip_prefix(name, block_a + end_a, block_b + end_b);
    if keys.len() == 0 {
        assert(first.labels =~= second.labels);
        assert(block_a + end_a =~= end_a);
        assert(block_b + end_b =~= end_b);
    } else {
        let inner_a = joined(label_pairs(keys, first.labels), seq![',']) + seq!['}'] + end_a;
        let inner_b = joined(label_pairs(keys, second.labels), seq![',']) + seq!['}'] + end_b;
        assert(block_a + end_a =~= seq!['{'] + inner_a);
        assert(block_b + end_b =~= seq!['{'] + inner_b);
        lemma_strip_prefix(seq!['{'], inner_a, inner_b);
        lemma_label_pairs_determine_values(keys, first.labels, second.labels, end_a, end_b);
    }
    let digits_a = decimal(first.value as nat);
    let digits_b = decimal(second.value as nat);
    assert(end_a =~= seq![' '] + (digits_a + seq!['\n']));
    assert(end_b =~= seq![' '] + (digits_b + seq!['\n']));
    lemma_strip_prefix(seq![' '], digits_a + seq!['\n'], digits_b + seq!['\n']);
    assert(digits_a =~= (digits_a + seq!['\n']).drop_last());
    assert(digits_b =~= (digits_b + seq!['\n']).drop_last());
    lemma_decimal_is_injective(first.value as nat, second.value as nat);
}

/// A label tuple that was never used has no line: none of the counters'
/// lines of the family is a line for that tuple, whatever the value.
pub proof fn lemma_absent_labels_have_no_line(
    family: FamilyView,
    labels: Seq<Seq<char>>,
    value: u64,
)
    requires
        family.well_formed(),
        labels.len() == family.label_keys.len(),
        !family.has_labels(labels),
    ensures
        forall|j: int|
            0 <= j < family.metrics.len() ==> #[trigger] sample_lines(family)[j] != sample_line(
                family.name,
                family.label_keys,
                MetricView { labels, value },
            ),
{
    let absent = MetricView { labels, value };
    assert forall|j: int| 0 <= j < family.metrics.len() implies #[trigger] sample_lines(family)[j]
        != sample_line(family.name, family.label_keys, absent) by {
        if sample_lines(family)[j] == sample_line(family.name, family.label_keys, absent) {
            assert(family.metrics[j].labels.len() == family.label_keys.len());
            lemma_sample_line_determines_counter(
                family.name,
                family.label_keys,
                family.metrics[j],
                absent,
            );
            assert(family.metrics[j].labels == labels);
        }
    }
}

} // verus!
