use vstd::prelude::*;
use vstd::string::*;
use vstd::multiset::Multiset;
use vstd::utf8::*;

use crate::html::{html_doc, html_page};

verus! {

broadcast use vstd::seq_lib::group_to_multiset_ensures, vstd::seq_lib::to_multiset_insert,
    vstd::multiset::group_multiset_axioms;

/// One entry of a directory: its name, and whether it is a directory.
#[derive(Debug)]
pub struct DirEntry {
    pub name: String,
    pub is_dir: bool,
}

/// The link that stands for one entry in a listing; a directory's name ends
/// in `/`.
pub open spec fn entry_html(name: Seq<char>, is_dir: bool) -> Seq<char> {
    let shown = if is_dir {
        name + "/"@
    } else {
        name
    };
    "<a href=\"./"@ + shown + "\">"@ + shown + "</a>"@
}

/// Byte-wise lexicographic order, the order of `String`'s `Ord`.
pub open spec fn bytes_le(a: Seq<u8>, b: Seq<u8>) -> bool
    decreases a.len(),
{
    if a.len() == 0 {
        true
    } else if b.len() == 0 {
        false
    } else if a[0] != b[0] {
        a[0] < b[0]
    } else {
        bytes_le(a.subrange(1, a.len() as int), b.subrange(1, b.len() as int))
    }
}

/// The order of texts by their UTF-8 bytes.
pub open spec fn text_le(a: Seq<char>, b: Seq<char>) -> bool {
    bytes_le(encode_utf8(a), encode_utf8(b))
}

/// Whether `s` is in ascending order.
pub open spec fn is_sorted(s: Seq<Seq<char>>) -> bool {
    forall|i: int, j: int| 0 <= i < j < s.len() ==> text_le(#[trigger] s[i], #[trigger] s[j])
}

/// The texts of a sequence of strings.
pub open spec fn texts(v: Seq<String>) -> Seq<Seq<char>> {
    v.map_values(|s: String| s@)
}

/// The items of a list, with `</li><li>` between each two.
pub open spec fn join_items(items: Seq<Seq<char>>) -> Seq<char>
    decreases items.len(),
{
    if items.len() == 0 {
        Seq::empty()
    } else if items.len() == 1 {
        items[0]
    } else {
        join_items(items.drop_last()) + "</li><li>"@ + items.last()
    }
}

/// The page that lists a directory shown as `display`, whose entries are
/// `items` in this order: a link to the parent directory first, then the
/// entries as a list.
pub open spec fn listing_page(display: Seq<char>, items: Seq<Seq<char>>) -> Seq<char> {
    html_page(
        "Directory Listing"@,
        "Listing for "@ + display,
        "<a href=\"./../\">&uarr; Parent Directory</a><ul><li>"@ + join_items(items)
            + "</li></ul>"@,
    )
}

proof fn lemma_bytes_le_total(a: Seq<u8>, b: Seq<u8>)
    ensures
        bytes_le(a, b) || bytes_le(b, a),
    decreases a.len(),
{
    if a.len() > 0 && b.len() > 0 && a[0] == b[0] {
        lemma_bytes_le_total(a.subrange(1, a.len() as int), b.subrange(1, b.len() as int));
    }
}

proof fn lemma_bytes_le_trans(a: Seq<u8>, b: Seq<u8>, c: Seq<u8>)
    requires
        bytes_le(a, b),
        bytes_le(b, c),
    ensures
        bytes_le(a, c),
    decreases a.len(),
{
    if a.len() > 0 && b.len() > 0 && c.len() > 0 && a[0] == b[0] && b[0] == c[0] {
        lemma_bytes_le_trans(
            a.subrange(1, a.len() as int),
            b.subrange(1, b.len() as int),
            c.subrange(1, c.len() as int),
        );
    }
}

/// Whether `a` comes no later than `b` in byte order.
fn le_bytes(a: &[u8], b: &[u8]) -> (r: bool)
    ensures
        r == bytes_le(a@, b@),
{
    let mut i: usize = 0;
    assert(a@.subrange(0, a@.len() as int) =~= a@);
    assert(b@.subrange(0, b@.len() as int) =~= b@);
    while i < a.len() && i < b.len()
        invariant
            i <= a@.len(),
            i <= b@.len(),
            bytes_le(a@, b@) == bytes_le(
                a@.subrange(i as int, a@.len() as int),
                b@.subrange(i as int, b@.len() as int),
            ),
        decreases a@.len() - i,
    {
        if a[i] != b[i] {
            return a[i] < b[i];
        }
        let ghost ra = a@.subrange(i as int, a@.len() as int);
        let ghost rb = b@.subrange(i as int, b@.len() as int);
        assert(ra.subrange(1, ra.len() as int) =~= a@.subrange(i + 1, a@.len() as int));
        assert(rb.subrange(1, rb.len() as int) =~= b@.subrange(i + 1, b@.len() as int));
        i = i + 1;
    }
    i == a.len()
}

/// Sorts strings by their bytes, as `sort_unstable` orders `String`s.
pub fn sort_texts(v: Vec<String>) -> (r: Vec<String>)
    ensures
        texts(r@).to_multiset() == texts(v@).to_multiset(),
        is_sorted(texts(r@)),
{
    let mut rest = v;
    let mut out: Vec<String> = Vec::new();
    assert(texts(out@) =~= Seq::<Seq<char>>::empty());
    assert(texts(out@).to_multiset().len() == 0);
    assert(texts(out@).to_multiset() =~= Multiset::empty());
    assert(texts(out@).to_multiset().add(texts(rest@).to_multiset()) =~= texts(v@).to_multiset());
    while rest.len() > 0
        invariant
            texts(out@).to_multiset().add(texts(rest@).to_multiset()) == texts(v@).to_multiset(),
            is_sorted(texts(out@)),
        decreases rest@.len(),
    {
        let ghost before_rest = rest@;
        let x = rest.pop().unwrap();
        assert(texts(before_rest) =~= texts(rest@).push(x@));
        let xb = x.as_str().as_bytes();
        let mut k: usize = 0;
        let mut found = false;
        while !found && k < out.len()
            invariant
                k <= out@.len(),
                xb@ == encode_utf8(x@),
                forall|i: int| 0 <= i < k ==> text_le(#[trigger] texts(out@)[i], x@),
                found ==> k < out@.len() && !text_le(texts(out@)[k as int], x@),
            decreases out@.len() - k + (if found { 0int } else { 1int }),
        {
            if le_bytes(out[k].as_str().as_bytes(), xb) {
                k = k + 1;
            } else {
                found = true;
            }
        }
        let ghost before_out = texts(out@);
        proof {
            if k < out@.len() {
                lemma_bytes_le_total(encode_utf8(x@), encode_utf8(before_out[k as int]));
            }
        }
        out.insert(k, x);
        assert(texts(out@) =~= before_out.insert(k as int, x@));
        proof {
            let t = texts(out@);
            assert forall|i: int, j: int| 0 <= i < j < t.len() implies text_le(
                #[trigger] t[i],
                #[trigger] t[j],
            ) by {
                if j < k {
                    assert(t[i] == before_out[i] && t[j] == before_out[j]);
                } else if j == k {
                    assert(t[i] == before_out[i]);
                } else if i == k {
                    assert(t[j] == before_out[j - 1]);
                    if j - 1 > k {
                        assert(text_le(before_out[k as int], before_out[j - 1]));
                        lemma_bytes_le_trans(
                            encode_utf8(x@),
                            encode_utf8(before_out[k as int]),
                            encode_utf8(before_out[j - 1]),
                        );
                    }
                } else if i < k {
                    assert(t[i] == before_out[i] && t[j] == before_out[j - 1]);
                    assert(text_le(before_out[i], x@));
                    if i < j - 1 {
                        assert(text_le(before_out[i], before_out[j - 1]));
                    }
                } else {
                    assert(t[i] == before_out[i - 1] && t[j] == before_out[j - 1]);
                }
            }
            assert(t.to_multiset() == before_out.to_multiset().insert(x@));
            assert(texts(before_rest).to_multiset() == texts(rest@).to_multiset().insert(x@));
            assert(t.to_multiset().add(texts(rest@).to_multiset()) =~= before_out.to_multiset().add(
                texts(before_rest).to_multiset(),
            ));
        }
    }
    assert(texts(rest@) =~= Seq::<Seq<char>>::empty());
    assert(texts(rest@).to_multiset().len() == 0);
    assert(texts(rest@).to_multiset() =~= Multiset::empty());
    assert(texts(out@).to_multiset() =~= texts(out@).to_multiset().add(texts(rest@).to_multiset()));
    out
}

/// Renders one directory entry as a link; a directory's name ends in `/`.
pub fn render_entry(name: &str, is_dir: bool) -> (r: String)
    ensures
        r@ == entry_html(name@, is_dir),
{
    let mut shown = String::from_str(name);
    if is_dir {
        shown.append("/");
    }
    let mut r = String::from_str("<a href=\"./");
    r.append(shown.as_str());
    r.append("\">");
    r.append(shown.as_str());
    r.append("</a>");
    r
}

/// The HTML page that lists the entries of the directory shown as
/// `display`: a link to the parent directory, then one link per entry,
/// sorted by its text.
pub fn list_dir(display: &str, entries: &Vec<DirEntry>) -> (r: Vec<u8>)
    ensures
        exists|items: Seq<Seq<char>>|
            {
                &&& is_sorted(items)
                &&& items.to_multiset() == entries@.map_values(
                    |e: DirEntry| entry_html(e.name@, e.is_dir),
                ).to_multiset()
                &&& r@ == encode_utf8(listing_page(display@, items))
            },
        forall|items: Seq<Seq<char>>|
            is_sorted(items) && items.to_multiset() == entries@.map_values(
                |e: DirEntry| entry_html(e.name@, e.is_dir),
            ).to_multiset() ==> r@ == encode_utf8(listing_page(display@, items)),
{
    let mut links: Vec<String> = Vec::new();
    let mut i: usize = 0;
    while i < entries.len()
        invariant
            i <= entries@.len(),
            texts(links@) == entries@.subrange(0, i as int).map_values(
                |e: DirEntry| entry_html(e.name@, e.is_dir),
            ),
        decreases entries@.len() - i,
    {
        let e = &entries[i];
        let link = render_entry(e.name.as_str(), e.is_dir);
        let ghost before = links@;
        let ghost f = |e: DirEntry| entry_html(e.name@, e.is_dir);
        links.push(link);
        assert(texts(links@) =~= texts(before).push(entry_html(e.name@, e.is_dir)));
        assert(entries@.subrange(0, i + 1) =~= entries@.subrange(0, i as int).push(entries@[i as int]));
        assert(entries@.subrange(0, i + 1).map_values(f) =~= entries@.subrange(0, i as int).map_values(f).push(f(entries@[i as int])));
        i = i + 1;
        assert(texts(links@) =~= entries@.subrange(0, i as int).map_values(
            |e: DirEntry| entry_html(e.name@, e.is_dir),
        ));
    }
    assert(entries@.subrange(0, i as int) =~= entries@);
    let sorted = sort_texts(links);
    let ghost items = texts(sorted@);
    let mut body = String::from_str("<a href=\"./../\">&uarr; Parent Directory</a><ul><li>");
    let mut k: usize = 0;
    assert(items.subrange(0, 0) =~= Seq::<Seq<char>>::empty());
    while k < sorted.len()
        invariant
            k <= sorted@.len(),
            items == texts(sorted@),
            body@ == "<a href=\"./../\">&uarr; Parent Directory</a><ul><li>"@ + join_items(
                items.subrange(0, k as int),
            ),
        decreases sorted@.len() - k,
    {
        if k > 0 {
            body.append("</li><li>");
        }
        body.append(sorted[k].as_str());
        assert(items.subrange(0, k + 1).drop_last() =~= items.subrange(0, k as int));
        k = k + 1;
        assert(body@ =~= "<a href=\"./../\">&uarr; Parent Directory</a><ul><li>"@ + join_items(
            items.subrange(0, k as int),
        ));
    }
    assert(items.subrange(0, k as int) =~= items);
    body.append("</li></ul>");
    let mut lead = String::from_str("Listing for ");
    lead.append(display);
    let page = html_doc("Directory Listing", lead.as_str(), body.as_str());
    let r = page.as_str().as_bytes_vec();
    proof {
        let m = entries@.map_values(|e: DirEntry| entry_html(e.name@, e.is_dir)).to_multiset();
        assert forall|other: Seq<Seq<char>>|
            is_sorted(other) && other.to_multiset() == m implies r@ == encode_utf8(
            listing_page(display@, other),
        ) by {
            lemma_sorted_order_is_unique(other, items);
        }
    }
    r
}

proof fn lemma_bytes_le_antisym(a: Seq<u8>, b: Seq<u8>)
    requires
        bytes_le(a, b),
        bytes_le(b, a),
    ensures
        a == b,
    decreases a.len(),
{
    if a.len() > 0 && b.len() > 0 {
        let ta = a.subrange(1, a.len() as int);
        let tb = b.subrange(1, b.len() as int);
        lemma_bytes_le_antisym(ta, tb);
        assert(a =~= seq![a[0]] + ta);
        assert(b =~= seq![b[0]] + tb);
    } else {
        assert(a =~= b);
    }
}

proof fn lemma_bytes_le_refl(a: Seq<u8>)
    ensures
        bytes_le(a, a),
    decreases a.len(),
{
    if a.len() > 0 {
        lemma_bytes_le_refl(a.subrange(1, a.len() as int));
    }
}

proof fn lemma_text_le_antisym(a: Seq<char>, b: Seq<char>)
    requires
        text_le(a, b),
        text_le(b, a),
    ensures
        a == b,
{
    lemma_bytes_le_antisym(encode_utf8(a), encode_utf8(b));
    encode_utf8_decode_utf8(a);
    encode_utf8_decode_utf8(b);
}

/// The entries of a listing come in one order only: two sorted sequences of
/// texts that hold the same texts are equal.
pub proof fn lemma_sorted_order_is_unique(a: Seq<Seq<char>>, b: Seq<Seq<char>>)
    requires
        is_sorted(a),
        is_sorted(b),
        a.to_multiset() == b.to_multiset(),
    ensures
        a == b,
    decreases a.len(),
{
    assert(a.len() == b.len()) by {
        assert(a.len() == a.to_multiset().len());
        assert(b.len() == b.to_multiset().len());
    }
    if a.len() > 0 {
        let n = a.len() - 1;
        let x = a[n];
        let y = b[n];
        assert(a.contains(x));
        assert(b.to_multiset().count(x) > 0);
        let i = choose|i: int| 0 <= i < b.len() && b[i] == x;
        assert(b.contains(y));
        assert(a.to_multiset().count(y) > 0);
        let k = choose|k: int| 0 <= k < a.len() && a[k] == y;
        lemma_bytes_le_refl(encode_utf8(x));
        lemma_bytes_le_refl(encode_utf8(y));
        if i < n {
            assert(text_le(b[i], b[n]));
        }
        if k < n {
            assert(text_le(a[k], a[n]));
        }
        assert(text_le(x, y));
        assert(text_le(y, x));
        lemma_text_le_antisym(x, y);
        let a0 = a.drop_last();
        let b0 = b.drop_last();
        assert(a0.push(x) =~= a);
        assert(b0.push(x) =~= b);
        assert(a0.to_multiset() =~= b0.to_multiset()) by {
            assert(a.to_multiset() == a0.to_multiset().insert(x));
            assert(b.to_multiset() == b0.to_multiset().insert(x));
            assert(a0.to_multiset() =~= a0.to_multiset().insert(x).remove(x));
            assert(b0.to_multiset() =~= b0.to_multiset().insert(x).remove(x));
        }
        assert forall|p: int, q: int| 0 <= p < q < a0.len() implies text_le(
            #[trigger] a0[p],
            #[trigger] a0[q],
        ) by {
            assert(a0[p] == a[p] && a0[q] == a[q]);
        }
        assert forall|p: int, q: int| 0 <= p < q < b0.len() implies text_le(
            #[trigger] b0[p],
            #[trigger] b0[q],
        ) by {
            assert(b0[p] == b[p] && b0[q] == b[q]);
        }
        lemma_sorted_order_is_unique(a0, b0);
    } else {
        assert(a =~= b);
    }
}

} // verus!
