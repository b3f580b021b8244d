//! Markers: archives whose deletion has begun, in the `deleting` directory.
use crate::repository::names;
use crate::repository::names::pending_name;
use crate::text;
use crate::repository::settings::Repository;
use vstd::prelude::*;

verus! {

/// Whether a marker carries the name of its archive.
pub open spec fn is_named(file: Seq<char>) -> bool {
    names::pending_of(file) is Some && names::pending_of(file)->0.len() > 0
}

/// Markers in the order in which they are removed: nameless ones first, so that a crash leaves
/// named ones that can be retried.
pub open spec fn in_removal_order(files: Seq<Seq<char>>) -> Seq<Seq<char>> {
    files.filter(|file: Seq<char>| !is_named(file)) + files.filter(
        |file: Seq<char>| is_named(file),
    )
}

/// A marker made for an archive is read as that archive's, or as nameless.
pub proof fn marker_is_pending(name: Seq<char>, n: u64)
    ensures
        names::pending_of(names::marker_file(name, n)) == Some(
            if n > 0 && text::utf8_len(name) + text::utf8_len(names::marker_suffix(n))
                > names::MAX_NAME_LEN {
                Seq::empty()
            } else {
                name
            },
        ),
{
    let stem = if n > 0 && text::utf8_len(name) + text::utf8_len(names::marker_suffix(n))
        > names::MAX_NAME_LEN {
        Seq::empty()
    } else {
        name
    };
    let file = names::marker_file(name, n);
    reveal_strlit(".ddup");
    reveal_strlit(".ddup.");
    if n == 0 {
        assert(file.subrange(file.len() - 5, file.len() as int) =~= ".ddup"@);
        assert(text::without_suffix(file, ".ddup"@) =~= name);
    } else {
        let digits = text::decimal_text(n as nat);
        text::decimal_text_is_digits(n as nat);
        assert(file =~= (stem + ".ddup."@) + digits);
        let front = stem + ".ddup."@;
        trailing_digits_of(front, digits);
        assert(file.last() == digits.last());
        assert(text::is_decimal_digit(digits[digits.len() - 1]));
        assert(!text::has_suffix(file, ".ddup"@)) by {
            if text::has_suffix(file, ".ddup"@) {
                let end = file.subrange(file.len() - 5, file.len() as int);
                assert(end[4] == file.last());
                assert(".ddup"@[4] == 'p');
            }
        }
        assert(file.take(file.len() - digits.len()) =~= front);
        assert(front.subrange(front.len() - 6, front.len() as int) =~= ".ddup."@);
        assert(text::without_suffix(front, ".ddup."@) =~= stem);
    }
}

proof fn trailing_digits_of(front: Seq<char>, digits: Seq<char>)
    requires
        front.len() > 0,
        !text::is_decimal_digit(front.last()),
        forall|i: int| 0 <= i < digits.len() ==> text::is_decimal_digit(#[trigger] digits[i]),
    ensures
        names::trailing_digits(front + digits) == digits.len(),
    decreases digits.len(),
{
    let whole = front + digits;
    if digits.len() == 0 {
        assert(whole =~= front);
    } else {
        assert(whole.drop_last() =~= front + digits.drop_last());
        assert(whole.last() == digits[digits.len() - 1]);
        trailing_digits_of(front, digits.drop_last());
    }
}

/// Markers with different numbers are different files, so counting up finds a free one.
pub proof fn markers_differ(name: Seq<char>, n: u64, m: u64)
    requires
        names::marker_file(name, n) == names::marker_file(name, m),
        name.len() > 0,
    ensures
        n == m,
{
    reveal_strlit(".ddup");
    reveal_strlit(".ddup.");
    marker_is_pending(name, n);
    marker_is_pending(name, m);
    let file = names::marker_file(name, n);
    let stem = names::pending_of(file)->0;
    text::decimal_text_is_digits(n as nat);
    text::decimal_text_is_digits(m as nat);
    if n == 0 || m == 0 {
        if n != m {
            let k = if n == 0 {
                m
            } else {
                n
            };
            let digits = text::decimal_text(k as nat);
            assert(names::marker_file(name, 0).last() == ".ddup"@[4]);
            assert(names::marker_file(name, k).last() == digits[digits.len() - 1]);
        }
    } else {
        let a = text::decimal_text(n as nat);
        let b = text::decimal_text(m as nat);
        assert(file =~= (stem + ".ddup."@) + a);
        assert(file =~= (stem + ".ddup."@) + b);
        assert(a =~= file.skip((stem + ".ddup."@).len() as int));
        assert(b =~= file.skip((stem + ".ddup."@).len() as int));
        text::decimal_text_is_injective(n as nat, m as nat);
    }
}

proof fn order_is_total(a: Seq<char>, b: Seq<char>)
    ensures
        a == b || names::sorts_before(a, b) || names::sorts_before(b, a),
    decreases a.len(),
{
    if a.len() > 0 && b.len() > 0 && a[0] == b[0] {
        order_is_total(a.drop_first(), b.drop_first());
        if a.drop_first() == b.drop_first() {
            assert(a =~= seq![a[0]] + a.drop_first());
            assert(b =~= seq![b[0]] + b.drop_first());
        }
    } else if a.len() == 0 && b.len() == 0 {
        assert(a =~= b);
    }
}

proof fn order_is_strict(a: Seq<char>)
    ensures
        !names::sorts_before(a, a),
    decreases a.len(),
{
    if a.len() > 0 {
        order_is_strict(a.drop_first());
    }
}

/// Names in order are different names.
pub proof fn names_in_order_differ(list: Seq<Seq<char>>)
    requires
        names::in_order(list),
    ensures
        list.no_duplicates(),
{
    assert forall|i: int, j: int| 0 <= i < j < list.len() implies list[i] != list[j] by {
        order_is_strict(list[i]);
        assert(names::sorts_before(list[i], list[j]));
    }
}

proof fn order_is_transitive(a: Seq<char>, b: Seq<char>, c: Seq<char>)
    requires
        names::sorts_before(a, b),
        names::sorts_before(b, c),
    ensures
        names::sorts_before(a, c),
    decreases a.len(),
{
    if a.len() > 0 && b.len() > 0 && c.len() > 0 && a[0] == b[0] && b[0] == c[0] {
        order_is_transitive(a.drop_first(), b.drop_first(), c.drop_first());
    }
}

fn text_before(a: &str, b: &str) -> (before: bool)
    ensures
        before == names::sorts_before(a@, b@),
{
    let a_len: usize = a.unicode_len();
    let b_len: usize = b.unicode_len();
    let mut i: usize = 0;
    assert(a@.skip(0) =~= a@ && b@.skip(0) =~= b@);
    loop
        invariant
            i <= a_len,
            i <= b_len,
            a_len == a@.len(),
            b_len == b@.len(),
            names::sorts_before(a@, b@) == names::sorts_before(
                a@.skip(i as int),
                b@.skip(i as int),
            ),
        decreases a_len - i,
    {
        if i == b_len {
            return false;
        }
        if i == a_len {
            return true;
        }
        let x = a.get_char(i);
        let y = b.get_char(i);
        if x != y {
            return x < y;
        }
        assert(a@.skip(i as int).drop_first() =~= a@.skip(i + 1));
        assert(b@.skip(i as int).drop_first() =~= b@.skip(i + 1));
        i = i + 1;
    }
}

/// Puts a name in its place among names in order, unless it is there.
fn insert_name(sorted: &mut Vec<String>, name: String)
    requires
        names::in_order(names::texts(old(sorted)@)),
    ensures
        names::in_order(names::texts(final(sorted)@)),
        forall|t: Seq<char>| #[trigger]
            names::texts(final(sorted)@).contains(t) <==> names::texts(old(sorted)@).contains(t)
                || t == name@,
{
    let ghost old_texts = names::texts(sorted@);
    let mut i: usize = 0;
    while i < sorted.len() && text_before(sorted[i].as_str(), name.as_str())
        invariant
            i <= sorted@.len(),
            old_texts == names::texts(sorted@),
            forall|j: int| 0 <= j < i ==> names::sorts_before(#[trigger] old_texts[j], name@),
        decreases sorted@.len() - i,
    {
        assert(old_texts[i as int] == sorted@[i as int]@);
        i = i + 1;
    }
    if i < sorted.len() && sorted[i] == name {
        proof {
            assert(old_texts[i as int] == name@);
        }
        return;
    }
    let ghost text = name@;
    sorted.insert(i, name);
    proof {
        let new_texts = names::texts(sorted@);
        assert(new_texts =~= old_texts.insert(i as int, text));
        if i < old_texts.len() {
            order_is_total(old_texts[i as int], text);
        }
        assert forall|a: int, b: int| 0 <= a < b < new_texts.len() implies names::sorts_before(
            #[trigger] new_texts[a],
            #[trigger] new_texts[b],
        ) by {
            if b == i {
                assert(new_texts[a] == old_texts[a]);
            } else if a == i {
                assert(new_texts[b] == old_texts[b - 1]);
                if b - 1 > i {
                    order_is_transitive(text, old_texts[i as int], old_texts[b - 1]);
                }
            } else {
                let x = if a < i {
                    a
                } else {
                    a - 1
                };
                let y = if b < i {
                    b
                } else {
                    b - 1
                };
                assert(new_texts[a] == old_texts[x] && new_texts[b] == old_texts[y]);
            }
        }
        assert forall|t: Seq<char>| #[trigger]
            new_texts.contains(t) <==> old_texts.contains(t) || t == text by {
            if old_texts.contains(t) {
                let k = choose|k: int| 0 <= k < old_texts.len() && old_texts[k] == t;
                assert(new_texts[if k < i {
                    k
                } else {
                    k + 1
                }] == t);
            }
            if t == text {
                assert(new_texts[i as int] == t);
            }
            if new_texts.contains(t) && t != text {
                let k = choose|k: int| 0 <= k < new_texts.len() && new_texts[k] == t;
                assert(old_texts[if k < i {
                    k
                } else {
                    k - 1
                }] == t);
            }
        }
    }
}

impl Repository {
    /// Archives whose deletion was interrupted, in order, each once. Markers without a name are left
    /// out.
    pub fn pending_deletions(markers: &Vec<String>) -> (pending: Vec<String>)
        ensures
            names::in_order(names::texts(pending@)),
            forall|i: int, j: int|
                0 <= i < j < pending@.len() ==> names::sorts_before(
                    (#[trigger] pending@[i])@,
                    (#[trigger] pending@[j])@,
                ),
            forall|name: Seq<char>| #[trigger]
                names::texts(pending@).contains(name) <==> name.len() > 0 && exists|i: int|
                    0 <= i < markers@.len() && names::pending_of((#[trigger] markers@[i])@) == Some(
                        name,
                    ),
    {
        let mut pending: Vec<String> = Vec::new();
        let mut i: usize = 0;
        while i < markers.len()
            invariant
                i <= markers@.len(),
                names::in_order(names::texts(pending@)),
                forall|name: Seq<char>| #[trigger]
                    names::texts(pending@).contains(name) <==> name.len() > 0 && pending_among(
                        markers@,
                        i as int,
                        name,
                    ),
            decreases markers@.len() - i,
        {
            let ghost before = names::texts(pending@);
            let name = pending_name(markers[i].as_str());
            let ghost found = names::pending_of(markers@[i as int]@);
            if let Some(name) = name {
                if name.as_str().unicode_len() > 0 {
                    insert_name(&mut pending, name);
                }
            }
            proof {
                assert forall|name: Seq<char>| #[trigger]
                    names::texts(pending@).contains(name) <==> name.len() > 0 && pending_among(
                        markers@,
                        i + 1,
                        name,
                    ) by {
                    assert(before.contains(name) <==> name.len() > 0 && pending_among(
                        markers@,
                        i as int,
                        name,
                    ));
                    if found == Some(name) {
                        assert(names::pending_of(markers@[i as int]@) == Some(name));
                        assert(pending_among(markers@, i + 1, name));
                    } else if pending_among(markers@, i + 1, name) {
                        let j = choose|j: int|
                            0 <= j < i + 1 && names::pending_of((#[trigger] markers@[j])@) == Some(
                                name,
                            );
                        assert(j < i);
                        assert(pending_among(markers@, i as int, name));
                    }
                }
            }
            i = i + 1;
        }
        proof {
            assert forall|name: Seq<char>| #[trigger]
                names::texts(pending@).contains(name) <==> name.len() > 0 && exists|i: int|
                    0 <= i < markers@.len() && names::pending_of((#[trigger] markers@[i])@) == Some(
                        name,
                    ) by {
                assert(names::texts(pending@).contains(name) <==> name.len() > 0 && pending_among(
                    markers@,
                    i as int,
                    name,
                ));
            }
            assert forall|i: int, j: int| 0 <= i < j < pending@.len() implies names::sorts_before(
                (#[trigger] pending@[i])@,
                (#[trigger] pending@[j])@,
            ) by {
                let model = names::texts(pending@);
                assert(model[i] == pending@[i]@ && model[j] == pending@[j]@);
            }
        }
        pending
    }
}

spec fn pending_among(markers: Seq<String>, n: int, name: Seq<char>) -> bool {
    exists|i: int| 0 <= i < n && names::pending_of((#[trigger] markers[i])@) == Some(name)
}

/// The markers among the files of the `deleting` directory. A file name that is not Unicode is
/// `None`.
pub fn pending_markers(files: &Vec<Option<String>>) -> (markers: Vec<String>)
    ensures
        names::texts(markers@) == markers_in(crate::tree::path_model(files@)),
{
    let mut markers: Vec<String> = Vec::new();
    let mut i: usize = 0;
    let ghost model = crate::tree::path_model(files@);
    assert(model.take(0) =~= Seq::empty());
    assert(names::texts(markers@) =~= Seq::empty());
    while i < files.len()
        invariant
            i <= files@.len(),
            model == crate::tree::path_model(files@),
            names::texts(markers@) == markers_in(model.take(i as int)),
        decreases files@.len() - i,
    {
        assert(model.take(i + 1).drop_last() =~= model.take(i as int));
        let ghost before = markers@;
        if let Some(file) = &files[i] {
            if pending_name(file.as_str()).is_some() {
                markers.push(file.clone());
                assert(names::texts(markers@) =~= names::texts(before).push(file@));
            }
        }
        i = i + 1;
    }
    assert(model.take(i as int) =~= model);
    markers
}

/// The files that are markers, in order.
pub open spec fn markers_in(files: Seq<Option<Seq<char>>>) -> Seq<Seq<char>>
    decreases files.len(),
{
    if files.len() == 0 {
        Seq::empty()
    } else {
        let front = markers_in(files.drop_last());
        match files.last() {
            Some(file) => if names::pending_of(file) is Some {
                front.push(file)
            } else {
                front
            },
            None => front,
        }
    }
}

/// Markers in the order in which they are removed once the index is saved.
pub fn removal_order(markers: &Vec<String>) -> (ordered: Vec<String>)
    ensures
        names::texts(ordered@) == in_removal_order(names::texts(markers@)),
{
    let mut nameless: Vec<String> = Vec::new();
    let mut named: Vec<String> = Vec::new();
    let ghost model = names::texts(markers@);
    let ghost without = |file: Seq<char>| !is_named(file);
    let ghost with = |file: Seq<char>| is_named(file);
    let mut i: usize = 0;
    proof {
        reveal(Seq::filter);
        assert(names::texts(nameless@) =~= model.take(0).filter(without));
        assert(names::texts(named@) =~= model.take(0).filter(with));
    }
    while i < markers.len()
        invariant
            i <= markers@.len(),
            model == names::texts(markers@),
            without == (|file: Seq<char>| !is_named(file)),
            with == (|file: Seq<char>| is_named(file)),
            names::texts(nameless@) == model.take(i as int).filter(without),
            names::texts(named@) == model.take(i as int).filter(with),
        decreases markers@.len() - i,
    {
        proof {
            reveal(Seq::filter);
            assert(model.take(i + 1).drop_last() =~= model.take(i as int));
        }
        let ghost old_nameless = nameless@;
        let ghost old_named = named@;
        let has_name = match pending_name(markers[i].as_str()) {
            Some(name) => name.as_str().unicode_len() > 0,
            None => false,
        };
        if has_name {
            named.push(markers[i].clone());
            assert(names::texts(named@) =~= names::texts(old_named).push(model[i as int]));
        } else {
            nameless.push(markers[i].clone());
            assert(names::texts(nameless@) =~= names::texts(old_nameless).push(model[i as int]));
        }
        i = i + 1;
    }
    assert(model.take(i as int) =~= model);
    let ghost a = nameless@;
    let ghost b = named@;
    nameless.append(&mut named);
    assert(names::texts(nameless@) =~= names::texts(a) + names::texts(b));
    nameless
}

proof fn digits_at_the_end(file: Seq<char>)
    ensures
        names::trailing_digits(file) <= file.len(),
        forall|i: int|
            file.len() - names::trailing_digits(file) <= i < file.len()
                ==> text::is_decimal_digit(#[trigger] file[i]),
    decreases file.len(),
{
    if file.len() > 0 && text::is_decimal_digit(file.last()) {
        digits_at_the_end(file.drop_last());
        assert forall|i: int|
            file.len() - names::trailing_digits(file) <= i < file.len() implies
            text::is_decimal_digit(#[trigger] file[i]) by {
            if i < file.len() - 1 {
                assert(file.drop_last()[i] == file[i]);
            }
        }
    }
}

/// A file is a marker for a name exactly if it is the name with `.ddup` behind it, or with `.ddup.`
/// and at least one decimal digit.
pub proof fn markers_by_their_ending(file: Seq<char>, name: Seq<char>)
    ensures
        names::pending_of(file) == Some(name) <==> file == name + ".ddup"@ || exists|
            digits: Seq<char>,
        |
            file == #[trigger] (name + ".ddup."@ + digits) && digits.len() > 0 && forall|i: int|
                0 <= i < digits.len() ==> '0' <= #[trigger] digits[i] <= '9',
{
    reveal_strlit(".ddup");
    reveal_strlit(".ddup.");
    digits_at_the_end(file);
    text::suffix_is_the_back(file, ".ddup"@);
    let n = names::trailing_digits(file);
    let stem = file.take(file.len() - n);
    let tail = file.skip(file.len() - n);
    assert(file =~= stem + tail);
    text::suffix_is_the_back(stem, ".ddup."@);
    if names::pending_of(file) == Some(name) {
        if !text::has_suffix(file, ".ddup"@) {
            assert(file =~= name + ".ddup."@ + tail);
            assert forall|i: int| 0 <= i < tail.len() implies '0' <= #[trigger] tail[i] <= '9' by {
                assert(tail[i] == file[file.len() - n + i]);
                assert(text::is_decimal_digit(file[file.len() - n + i]));
            }
        }
    }
    if file == name + ".ddup"@ {
        assert(text::without_suffix(file, ".ddup"@) =~= name);
    }
    assert forall|digits: Seq<char>|
        file == #[trigger] (name + ".ddup."@ + digits) && digits.len() > 0 && (forall|i: int|
            0 <= i < digits.len() ==> '0' <= #[trigger] digits[i] <= '9') implies names::pending_of(
        file,
    ) == Some(name) by {
        let front = name + ".ddup."@;
        trailing_digits_of(front, digits);
        assert(file.last() == digits[digits.len() - 1]);
        if text::has_suffix(file, ".ddup"@) {
            let end = file.subrange(file.len() - 5, file.len() as int);
            assert(end[4] == file.last());
            assert(".ddup"@[4] == 'p');
        }
        assert(stem =~= front);
        assert(text::without_suffix(front, ".ddup."@) =~= name);
    }
}

/// The markers among files come in the order of the files; what is no marker is left out.
pub proof fn markers_are_found_in_order(files: Seq<Option<Seq<char>>>, file: Seq<char>)
    ensures
        markers_in(Seq::empty()) == Seq::<Seq<char>>::empty(),
        markers_in(files.push(None)) == markers_in(files),
        markers_in(files.push(Some(file))) == if names::pending_of(file) is Some {
            markers_in(files).push(file)
        } else {
            markers_in(files)
        },
{
    assert(files.push(None).drop_last() =~= files);
    assert(files.push(Some(file)).drop_last() =~= files);
}

/// Every marker is removed, as often as it is there, and none behind the first that carries a name
/// is nameless.
pub proof fn nameless_markers_go_first(files: Seq<Seq<char>>, i: int, j: int)
    requires
        0 <= i < j < in_removal_order(files).len(),
    ensures
        in_removal_order(files).to_multiset() == files.to_multiset(),
        ({
            let first = names::pending_of(in_removal_order(files)[i]);
            let later = names::pending_of(in_removal_order(files)[j]);
            first is Some && first->0.len() > 0 ==> later is Some && later->0.len() > 0
        }),
{
    removal_keeps_every_marker(files);
    let without = |file: Seq<char>| !is_named(file);
    let with = |file: Seq<char>| is_named(file);
    let front = files.filter(without);
    let back = files.filter(with);
    let all = in_removal_order(files);
    if is_named(all[i]) {
        if i < front.len() {
            assert(without(front[i]));
        }
        assert(with(back[j - front.len()]));
    }
}

/// Every marker is removed, as often as it is there.
pub proof fn removal_keeps_every_marker(files: Seq<Seq<char>>)
    ensures
        in_removal_order(files).to_multiset() == files.to_multiset(),
        in_removal_order(files).len() == files.len(),
    decreases files.len(),
{
    reveal(Seq::filter);
    broadcast use vstd::seq_lib::group_to_multiset_ensures;

    let without = |file: Seq<char>| !is_named(file);
    let with = |file: Seq<char>| is_named(file);
    if files.len() > 0 {
        let front = files.drop_last();
        let last = files.last();
        removal_keeps_every_marker(front);
        vstd::seq_lib::lemma_multiset_commutative(files.filter(without), files.filter(with));
        vstd::seq_lib::lemma_multiset_commutative(front.filter(without), front.filter(with));
        assert(files =~= front.push(last));
        assert(in_removal_order(files).to_multiset() =~= files.to_multiset());
    } else {
        assert(in_removal_order(files) =~= files);
    }
}

} // verus!
