//! Which files of a directory are pictures, and in which order they are shown.
use vstd::prelude::*;

verus! {

/// The byte before an extension.
pub const DOT: u8 = 46;

/// A byte with an upper-case ASCII letter made lower-case.
pub open spec fn lower(b: u8) -> u8 {
    if 65 <= b <= 90 {
        (b + 32) as u8
    } else {
        b
    }
}

/// `text` spells the ASCII word `word`, whatever the case of its letters.
pub open spec fn spells(text: Seq<u8>, word: Seq<char>) -> bool {
    &&& text.len() == word.len()
    &&& forall|i: int| 0 <= i < text.len() ==> lower(text[i]) as char == word[i]
}

/// The extensions of picture files.
pub open spec fn is_image_extension(text: Seq<u8>) -> bool {
    ||| spells(text, "jpg"@)
    ||| spells(text, "jpeg"@)
    ||| spells(text, "png"@)
    ||| spells(text, "bmp"@)
    ||| spells(text, "tiff"@)
    ||| spells(text, "tif"@)
    ||| spells(text, "webp"@)
}

/// The position of the last dot of a file name, or -1.
pub open spec fn last_dot(name: Seq<u8>) -> int
    decreases name.len(),
{
    if name.len() == 0 || name.last() == DOT {
        name.len() - 1
    } else {
        last_dot(name.drop_last())
    }
}

/// What follows the last dot of a file name. A name without a dot, or with none but the one
/// that it begins with, has no extension.
pub open spec fn extension(name: Seq<u8>) -> Option<Seq<u8>> {
    if last_dot(name) > 0 {
        Some(name.skip(last_dot(name) + 1))
    } else {
        None
    }
}

/// A file name is that of a picture.
pub open spec fn is_image(name: Seq<u8>) -> bool {
    match extension(name) {
        Some(text) => is_image_extension(text),
        None => false,
    }
}

/// Whether the bytes of `name` from `from` on spell `word`.
fn tail_spells(name: &Vec<u8>, from: usize, word: &str) -> (r: bool)
    requires
        from <= name@.len(),
        word.is_ascii(),
    ensures
        r == spells(name@.skip(from as int), word@),
{
    let bytes = word.as_bytes();
    proof {
        broadcast use vstd::string::group_string_axioms;
        assert(bytes@ =~= Seq::new(word@.len(), |i| word@.index(i) as u8));
    }
    let ghost tail = name@.skip(from as int);
    let len: usize = name.len();
    if len - from != bytes.len() {
        return false;
    }
    let mut i: usize = 0;
    while i < bytes.len()
        invariant
            i <= bytes@.len(),
            word.is_ascii(),
            bytes@ == Seq::new(word@.len(), |i| word@.index(i) as u8),
            from + bytes@.len() == name@.len() == len,
            tail == name@.skip(from as int),
            forall|j: int| 0 <= j < i ==> lower(tail[j]) as char == word@[j],
        decreases bytes@.len() - i,
    {
        let b: u8 = name[from + i];
        let small: u8 = if 65 <= b && b <= 90 {
            b + 32
        } else {
            b
        };
        assert(tail[i as int] == b);
        assert(bytes@[i as int] == word@[i as int] as u8);
        if small != bytes[i] {
            assert(lower(tail[i as int]) as char != word@[i as int]);
            return false;
        }
        i = i + 1;
    }
    true
}

/// Whether a file name is that of a picture.
pub fn is_image_name(name: &Vec<u8>) -> (r: bool)
    ensures
        r == is_image(name@),
{
    let mut end: usize = name.len();
    assert(name@.take(end as int) =~= name@);
    while end > 0 && name[end - 1] != DOT
        invariant
            end <= name@.len(),
            last_dot(name@) == last_dot(name@.take(end as int)),
        decreases end,
    {
        proof {
            assert(name@.take(end as int).drop_last() =~= name@.take(end - 1));
        }
        end = end - 1;
    }
    assert(last_dot(name@) == end - 1);
    if end < 2 {
        return false;
    }
    proof {
        reveal_strlit("jpg");
        reveal_strlit("jpeg");
        reveal_strlit("png");
        reveal_strlit("bmp");
        reveal_strlit("tiff");
        reveal_strlit("tif");
        reveal_strlit("webp");
    }
    tail_spells(name, end, "jpg") || tail_spells(name, end, "jpeg") || tail_spells(name, end, "png")
        || tail_spells(name, end, "bmp") || tail_spells(name, end, "tiff") || tail_spells(
        name,
        end,
        "tif",
    ) || tail_spells(name, end, "webp")
}

proof fn lemma_last_dot(stem: Seq<u8>, ext: Seq<u8>)
    requires
        forall|i: int| 0 <= i < ext.len() ==> ext[i] != 46,
    ensures
        last_dot(stem + seq![46u8] + ext) == stem.len(),
    decreases ext.len(),
{
    let name = stem + seq![46u8] + ext;
    if ext.len() == 0 {
        assert(name.last() == 46);
    } else {
        assert(name.last() == ext.last());
        assert(ext.last() == ext[ext.len() - 1]);
        assert(name.drop_last() =~= stem + seq![46u8] + ext.drop_last());
        lemma_last_dot(stem, ext.drop_last());
    }
}

proof fn lemma_no_dot(name: Seq<u8>)
    requires
        forall|i: int| 0 <= i < name.len() ==> name[i] != 46,
    ensures
        last_dot(name) == -1,
    decreases name.len(),
{
    if name.len() > 0 {
        assert(name.last() == name[name.len() - 1]);
        lemma_no_dot(name.drop_last());
    }
}

proof fn lemma_spells_letter(b: u8, c: char)
    requires
        97 <= c as int <= 122,
    ensures
        lower(b) as char == c <==> b as char == c || (b + 32) as char == c,
{
}

proof fn lemma_spells_letters(text: Seq<u8>, word: Seq<char>)
    requires
        3 <= word.len() <= 4,
        forall|i: int| 0 <= i < word.len() ==> 97 <= #[trigger] word[i] as int <= 122,
    ensures
        spells(text, word) <==> {
            let is = |i: int, c: char| text[i] as char == c || (text[i] + 32) as char == c;
            &&& text.len() == word.len()
            &&& is(0, word[0])
            &&& is(1, word[1])
            &&& is(2, word[2])
            &&& word.len() == 4 ==> is(3, word[3])
        },
{
    lemma_spells_letter(text[0], word[0]);
    lemma_spells_letter(text[1], word[1]);
    lemma_spells_letter(text[2], word[2]);
    if word.len() == 4 {
        lemma_spells_letter(text[3], word[3]);
    }
    if text.len() == word.len() && lower(text[0]) as char == word[0] && lower(text[1]) as char
        == word[1] && lower(text[2]) as char == word[2] && (word.len() == 4 ==> lower(
        text[3],
    ) as char == word[3]) {
        assert forall|i: int| 0 <= i < text.len() implies lower(text[i]) as char == word[i] by {
            assert(i == 0 || i == 1 || i == 2 || i == 3);
        }
    }
}

/// A file is a picture exactly where what follows the last dot of its name is one of seven
/// words, each letter in either case. The dot must not be the first character.
pub proof fn law_pictures_are_known_by_extension(stem: Seq<u8>, ext: Seq<u8>)
    requires
        stem.len() > 0,
        forall|i: int| 0 <= i < ext.len() ==> ext[i] != 46,
    ensures
        is_image(stem + seq![46u8] + ext) <==> ({
            let is = |i: int, c: char| ext[i] as char == c || (ext[i] + 32) as char == c;
            let n = ext.len();
            ||| n == 3 && is(0, 'j') && is(1, 'p') && is(2, 'g')
            ||| n == 4 && is(0, 'j') && is(1, 'p') && is(2, 'e') && is(3, 'g')
            ||| n == 3 && is(0, 'p') && is(1, 'n') && is(2, 'g')
            ||| n == 3 && is(0, 'b') && is(1, 'm') && is(2, 'p')
            ||| n == 4 && is(0, 't') && is(1, 'i') && is(2, 'f') && is(3, 'f')
            ||| n == 3 && is(0, 't') && is(1, 'i') && is(2, 'f')
            ||| n == 4 && is(0, 'w') && is(1, 'e') && is(2, 'b') && is(3, 'p')
        }),
{
    let name = stem + seq![46u8] + ext;
    lemma_last_dot(stem, ext);
    assert(name.skip(stem.len() as int + 1) =~= ext);
    reveal_strlit("jpg");
    reveal_strlit("jpeg");
    reveal_strlit("png");
    reveal_strlit("bmp");
    reveal_strlit("tiff");
    reveal_strlit("tif");
    reveal_strlit("webp");
    lemma_spells_letters(ext, "jpg"@);
    lemma_spells_letters(ext, "jpeg"@);
    lemma_spells_letters(ext, "png"@);
    lemma_spells_letters(ext, "bmp"@);
    lemma_spells_letters(ext, "tiff"@);
    lemma_spells_letters(ext, "tif"@);
    lemma_spells_letters(ext, "webp"@);
}

/// A name without a dot, or with no dot but the one that it begins with, is not that of a
/// picture.
pub proof fn law_other_names_are_no_pictures(name: Seq<u8>)
    requires
        forall|i: int| 1 <= i < name.len() ==> name[i] != 46,
    ensures
        !is_image(name),
{
    if name.len() > 0 && name[0] == 46 {
        let ext = name.skip(1);
        lemma_last_dot(Seq::empty(), ext);
        assert(Seq::<u8>::empty() + seq![46u8] + ext =~= name);
    } else {
        lemma_no_dot(name);
    }
}

proof fn lemma_last_dot_of_both(a: Seq<u8>, b: Seq<u8>)
    requires
        a.len() == b.len(),
        forall|i: int| 0 <= i < a.len() ==> (#[trigger] a[i] == 46 <==> b[i] == 46),
    ensures
        last_dot(a) == last_dot(b),
    decreases a.len(),
{
    if a.len() > 0 {
        assert(a.last() == a[a.len() - 1]);
        assert forall|i: int| 0 <= i < a.drop_last().len() implies (#[trigger] a.drop_last()[i] == 46
            <==> b.drop_last()[i] == 46) by {
            assert(a.drop_last()[i] == a[i]);
        }
        lemma_last_dot_of_both(a.drop_last(), b.drop_last());
    }
}

/// Whether a name is that of a picture does not depend on the case of its letters.
pub proof fn law_case_does_not_matter(a: Seq<u8>, b: Seq<u8>)
    requires
        a.len() == b.len(),
        forall|i: int|
            0 <= i < a.len() ==> {
                ||| #[trigger] a[i] == b[i]
                ||| exists|k: int| 0 <= k < 26 && a[i] == 65 + k && b[i] == #[trigger] (97 + k)
                ||| exists|k: int| 0 <= k < 26 && b[i] == 65 + k && a[i] == #[trigger] (97 + k)
            },
    ensures
        is_image(a) == is_image(b),
{
    lemma_last_dot_of_both(a, b);
    let from = last_dot(a) + 1;
    if from > 1 {
        lemma_last_dot_in_range(a);
        let (x, y) = (a.skip(from), b.skip(from));
        assert forall|i: int| 0 <= i < x.len() implies lower(#[trigger] x[i]) == lower(y[i]) by {
            assert(x[i] == a[from + i] && y[i] == b[from + i]);
        }
        lemma_spells_both(x, y, "jpg"@);
        lemma_spells_both(x, y, "jpeg"@);
        lemma_spells_both(x, y, "png"@);
        lemma_spells_both(x, y, "bmp"@);
        lemma_spells_both(x, y, "tiff"@);
        lemma_spells_both(x, y, "tif"@);
        lemma_spells_both(x, y, "webp"@);
    }
}

proof fn lemma_last_dot_in_range(name: Seq<u8>)
    ensures
        -1 <= last_dot(name) < name.len(),
    decreases name.len(),
{
    if name.len() > 0 {
        lemma_last_dot_in_range(name.drop_last());
    }
}

proof fn lemma_spells_both(x: Seq<u8>, y: Seq<u8>, word: Seq<char>)
    requires
        x.len() == y.len(),
        forall|i: int| 0 <= i < x.len() ==> lower(#[trigger] x[i]) == lower(y[i]),
    ensures
        spells(x, word) == spells(y, word),
{
    if spells(x, word) {
        assert forall|i: int| 0 <= i < y.len() implies lower(y[i]) as char == word[i] by {
            assert(lower(x[i]) == lower(y[i]));
        }
    }
    if spells(y, word) {
        assert forall|i: int| 0 <= i < x.len() implies lower(x[i]) as char == word[i] by {
            assert(lower(x[i]) == lower(y[i]));
        }
    }
}

/// `a` comes before `b` byte by byte, or is the same.
pub open spec fn in_order(a: Seq<u8>, b: Seq<u8>) -> bool
    decreases a.len(),
{
    if a.len() == 0 {
        true
    } else if b.len() == 0 {
        false
    } else if a[0] != b[0] {
        a[0] < b[0]
    } else {
        in_order(a.skip(1), b.skip(1))
    }
}

/// Two names are ordered by the first byte in which they differ.
pub proof fn law_order_goes_by_first_difference(a: Seq<u8>, b: Seq<u8>, k: int)
    requires
        0 <= k < a.len(),
        k < b.len(),
        a.take(k) == b.take(k),
        a[k] != b[k],
    ensures
        in_order(a, b) <==> a[k] < b[k],
    decreases k,
{
    if k > 0 {
        assert(a[0] == a.take(k)[0] && b[0] == b.take(k)[0]);
        let (x, y) = (a.skip(1), b.skip(1));
        assert forall|i: int| 0 <= i < k - 1 implies #[trigger] x[i] == y[i] by {
            assert(x[i] == a.take(k)[i + 1] && y[i] == b.take(k)[i + 1]);
        }
        assert(x.take(k - 1) =~= y.take(k - 1));
        law_order_goes_by_first_difference(x, y, k - 1);
    }
}

/// A name comes before every longer one that begins with it, and not after it.
pub proof fn law_shorter_name_comes_first(a: Seq<u8>, rest: Seq<u8>)
    ensures
        in_order(a, a + rest),
        in_order(a + rest, a) <==> rest.len() == 0,
    decreases a.len(),
{
    if a.len() > 0 {
        assert((a + rest).skip(1) =~= a.skip(1) + rest);
        law_shorter_name_comes_first(a.skip(1), rest);
    } else {
        assert(a + rest =~= rest);
    }
}

/// Of two names one comes before the other, or they are the same.
pub proof fn law_order_is_total(a: Seq<u8>, b: Seq<u8>)
    ensures
        in_order(a, b) || in_order(b, a),
        in_order(a, b) && in_order(b, a) ==> a == b,
    decreases a.len(),
{
    if a.len() > 0 && b.len() > 0 {
        law_order_is_total(a.skip(1), b.skip(1));
        if a[0] == b[0] && a.skip(1) == b.skip(1) {
            assert(a =~= seq![a[0]] + a.skip(1));
            assert(b =~= seq![b[0]] + b.skip(1));
        }
    } else if a.len() == 0 && b.len() == 0 {
        assert(a =~= b);
    }
}

/// The order of names carries over from one pair to the next.
pub proof fn law_order_is_transitive(a: Seq<u8>, b: Seq<u8>, c: Seq<u8>)
    requires
        in_order(a, b),
        in_order(b, c),
    ensures
        in_order(a, c),
    decreases a.len(),
{
    if a.len() > 0 && a[0] == b[0] && b[0] == c[0] {
        law_order_is_transitive(a.skip(1), b.skip(1), c.skip(1));
    }
}

/// Compares two names.
fn comes_first(a: &Vec<u8>, b: &Vec<u8>) -> (r: bool)
    ensures
        r == in_order(a@, b@),
{
    let mut i: usize = 0;
    assert(a@.skip(0) =~= a@);
    assert(b@.skip(0) =~= b@);
    while i < a.len() && i < b.len()
        invariant
            i <= a@.len(),
            i <= b@.len(),
            in_order(a@, b@) == in_order(a@.skip(i as int), b@.skip(i as int)),
        decreases a@.len() - i,
    {
        if a[i] != b[i] {
            return a[i] < b[i];
        }
        proof {
            assert(a@.skip(i as int).skip(1) =~= a@.skip(i + 1));
            assert(b@.skip(i as int).skip(1) =~= b@.skip(i + 1));
        }
        i = i + 1;
    }
    i == a.len()
}

/// The names as byte strings.
pub open spec fn texts(names: Seq<Vec<u8>>) -> Seq<Seq<u8>> {
    names.map_values(|name: Vec<u8>| name@)
}

/// No name comes before one that stands earlier.
pub open spec fn sorted(names: Seq<Seq<u8>>) -> bool {
    forall|i: int, j: int| 0 <= i <= j < names.len() ==> in_order(names[i], names[j])
}

/// Puts a name where it belongs in a sorted list.
fn insert_in_order(names: &mut Vec<Vec<u8>>, name: Vec<u8>)
    requires
        sorted(texts(old(names)@)),
    ensures
        sorted(texts(final(names)@)),
        texts(final(names)@).to_multiset() == texts(old(names)@).to_multiset().insert(name@),
{
    let ghost before = texts(names@);
    let mut low: usize = 0;
    let mut high: usize = names.len();
    while low < high
        invariant
            low <= high <= names@.len(),
            before == texts(names@),
            names@ == old(names)@,
            sorted(before),
            forall|j: int| 0 <= j < low ==> in_order(#[trigger] before[j], name@),
            forall|j: int| high <= j < before.len() ==> in_order(name@, #[trigger] before[j]),
        decreases high - low,
    {
        let middle: usize = low + (high - low) / 2;
        assert(before[middle as int] == names@[middle as int]@);
        if comes_first(&names[middle], &name) {
            proof {
                assert forall|j: int| 0 <= j <= middle implies in_order(
                    #[trigger] before[j],
                    name@,
                ) by {
                    law_order_is_transitive(before[j], before[middle as int], name@);
                }
            }
            low = middle + 1;
        } else {
            proof {
                law_order_is_total(before[middle as int], name@);
                assert forall|j: int| middle <= j < before.len() implies in_order(
                    name@,
                    #[trigger] before[j],
                ) by {
                    law_order_is_transitive(name@, before[middle as int], before[j]);
                }
            }
            high = middle;
        }
    }
    let ghost text = name@;
    names.insert(low, name);
    proof {
        let after = texts(names@);
        assert(after =~= before.insert(low as int, text));
        vstd::seq_lib::to_multiset_insert(before, low as int, text);
        law_order_is_total(text, text);
    }
}

/// The names of pictures among the entries of a directory listing; an entry that could not be
/// read has no name.
pub open spec fn images_of(listing: Seq<Option<Vec<u8>>>) -> Seq<Seq<u8>>
    decreases listing.len(),
{
    if listing.len() == 0 {
        Seq::empty()
    } else {
        match listing.last() {
            Some(name) if is_image(name@) => images_of(listing.drop_last()).push(name@),
            _ => images_of(listing.drop_last()),
        }
    }
}

/// The pictures of a directory, sorted by file name.
pub fn select_images(listing: Vec<Option<Vec<u8>>>) -> (r: Vec<Vec<u8>>)
    ensures
        sorted(texts(r@)),
        texts(r@).to_multiset() == images_of(listing@).to_multiset(),
        forall|i: int, j: int|
            0 <= i <= j < r@.len() ==> in_order(#[trigger] r@[i]@, #[trigger] r@[j]@),
        r@.map_values(|name: Vec<u8>| name@).to_multiset() == images_of(listing@).to_multiset(),
{
    let mut listing: Vec<Option<Vec<u8>>> = listing;
    let ghost all = images_of(listing@).to_multiset();
    let mut names: Vec<Vec<u8>> = Vec::new();
    proof {
        assert(texts(names@) =~= Seq::empty());
        broadcast use vstd::seq_lib::group_to_multiset_ensures;

        assert(all =~= Seq::<Seq<u8>>::empty().to_multiset().add(all));
    }
    while listing.len() > 0
        invariant
            sorted(texts(names@)),
            all == texts(names@).to_multiset().add(images_of(listing@).to_multiset()),
        decreases listing@.len(),
    {
        let ghost rest = images_of(listing@.drop_last());
        let ghost before = texts(names@).to_multiset();
        let entry = listing.pop();
        proof {
            broadcast use vstd::seq_lib::group_to_multiset_ensures;

        }
        if let Some(Some(name)) = entry {
            if is_image_name(&name) {
                proof {
                    vstd::seq_lib::to_multiset_build(rest, name@);
                    assert(before.add(rest.to_multiset().insert(name@)) =~= before.insert(
                        name@,
                    ).add(rest.to_multiset()));
                }
                insert_in_order(&mut names, name);
            }
        }
    }
    proof {
        broadcast use vstd::seq_lib::group_to_multiset_ensures;

        assert(all =~= texts(names@).to_multiset());
        assert forall|i: int, j: int| 0 <= i <= j < names@.len() implies in_order(
            #[trigger] names@[i]@,
            #[trigger] names@[j]@,
        ) by {
            assert(texts(names@)[i] == names@[i]@ && texts(names@)[j] == names@[j]@);
        }
        assert(names@.map_values(|name: Vec<u8>| name@) =~= texts(names@));
    }
    names
}

/// A sorted selection is determined by the names in it: the order of the listing does not
/// matter.
pub proof fn law_selection_is_determined(a: Seq<Seq<u8>>, b: Seq<Seq<u8>>)
    requires
        sorted(a),
        sorted(b),
        a.to_multiset() == b.to_multiset(),
    ensures
        a == b,
{
    let leq = |x: Seq<u8>, y: Seq<u8>| in_order(x, y);
    assert(vstd::relations::total_ordering(leq)) by {
        assert forall|x: Seq<u8>| #[trigger] leq(x, x) by {
            law_order_is_total(x, x);
        }
        assert forall|x: Seq<u8>, y: Seq<u8>| #[trigger] leq(x, y) && #[trigger] leq(y, x) implies x
            == y by {
            law_order_is_total(x, y);
        }
        assert forall|x: Seq<u8>, y: Seq<u8>, z: Seq<u8>| #[trigger]
            leq(x, y) && #[trigger] leq(y, z) implies leq(x, z) by {
            law_order_is_transitive(x, y, z);
        }
        assert forall|x: Seq<u8>, y: Seq<u8>| #[trigger] leq(x, y) || #[trigger] leq(y, x) by {
            law_order_is_total(x, y);
        }
    }
    vstd::seq_lib::lemma_sorted_unique(a, b, leq);
}

/// A sorted list of names is one in which none comes before one that stands earlier.
pub proof fn law_sorted_lists(names: Seq<Vec<u8>>)
    ensures
        sorted(texts(names)) <==> forall|i: int, j: int|
            0 <= i <= j < names.len() ==> in_order(#[trigger] names[i]@, #[trigger] names[j]@),
        texts(names).len() == names.len(),
        forall|i: int| 0 <= i < names.len() ==> texts(names)[i] == names[i]@,
{
    if forall|i: int, j: int|
        0 <= i <= j < names.len() ==> in_order(#[trigger] names[i]@, #[trigger] names[j]@) {
        assert forall|i: int, j: int| 0 <= i <= j < names.len() implies in_order(
            texts(names)[i],
            texts(names)[j],
        ) by {
            assert(texts(names)[i] == names[i]@ && texts(names)[j] == names[j]@);
        }
    }
    if sorted(texts(names)) {
        assert forall|i: int, j: int| 0 <= i <= j < names.len() implies in_order(
            #[trigger] names[i]@,
            #[trigger] names[j]@,
        ) by {
            assert(texts(names)[i] == names[i]@ && texts(names)[j] == names[j]@);
        }
    }
}

/// The name of a picture is selected as often as the listing holds it, and no other name is.
pub proof fn law_selection_keeps_every_entry(listing: Seq<Option<Vec<u8>>>, text: Seq<u8>)
    ensures
        images_of(listing).to_multiset().count(text) == if is_image(text) {
            listing.filter(|entry: Option<Vec<u8>>| entry is Some && entry->0@ == text).len()
        } else {
            0
        },
    decreases listing.len(),
{
    broadcast use vstd::seq_lib::group_to_multiset_ensures;

    reveal(Seq::filter);
    if listing.len() > 0 {
        let front = images_of(listing.drop_last());
        law_selection_keeps_every_entry(listing.drop_last(), text);
        if listing.last() is Some {
            vstd::seq_lib::to_multiset_build(front, listing.last()->0@);
        }
    }
}

/// The names selected are those of pictures that the listing holds, and all of them.
pub proof fn law_selection_contents(listing: Seq<Option<Vec<u8>>>, text: Seq<u8>)
    ensures
        images_of(listing).contains(text) <==> is_image(text) && exists|i: int|
            0 <= i < listing.len() && (#[trigger] listing[i]) is Some && listing[i]->0@ == text,
    decreases listing.len(),
{
    if listing.len() > 0 {
        let (front, last) = (listing.drop_last(), listing.last());
        law_selection_contents(front, text);
        let (all, some) = (images_of(listing), images_of(front));
        if last is Some && is_image(last->0@) {
            assert(all == some.push(last->0@));
            assert(all[all.len() - 1] == last->0@);
            if some.contains(text) {
                let i = choose|i: int| 0 <= i < some.len() && some[i] == text;
                assert(all[i] == text);
            }
        }
        if is_image(text) && exists|i: int|
            0 <= i < listing.len() && (#[trigger] listing[i]) is Some && listing[i]->0@ == text {
            let i = choose|i: int|
                0 <= i < listing.len() && (#[trigger] listing[i]) is Some && listing[i]->0@ == text;
            if i < front.len() {
                assert(front[i] == listing[i]);
            }
        }
        if some.contains(text) {
            let i = choose|i: int|
                0 <= i < front.len() && (#[trigger] front[i]) is Some && front[i]->0@ == text;
            assert(listing[i] == front[i]);
        }
        assert(listing[listing.len() - 1] == last);
    }
}

} // verus!
