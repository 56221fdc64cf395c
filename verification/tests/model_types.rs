use pdf_gen::layout::Margins;
use pdf_gen::Colour;
use pdf_gen::Info;
use pdf_gen::Outline;
use pdf_gen::Page;
use pdf_gen::PageOrientation;
use pdf_gen::Pt;

#[test]
fn info_setters_fill_each_field() {
    let mut info = Info::new();
    assert!(info.title.is_none());
    info.title("A Title".to_string());
    info.author("An Author".to_string());
    info.subject("A Subject".to_string());
    info.keywords("one, two".to_string());
    assert_eq!(info.title.as_deref(), Some("A Title"));
    assert_eq!(info.author.as_deref(), Some("An Author"));
    assert_eq!(info.subject.as_deref(), Some("A Subject"));
    assert_eq!(info.keywords.as_deref(), Some("one, two"));
}

#[test]
fn bookmarks_form_a_tree() {
    let mut outline = Outline::new();
    let root = outline.add_bookmark(None, 0, "Chapter".to_string());
    let child = outline.add_bookmark(Some(root), 3, "Section".to_string());
    assert_eq!(root, 0);
    assert_eq!(child, 1);
    assert_eq!(outline.entries[root].children, vec![child]);
    assert_eq!(outline.entries[child].parent, Some(root));
    assert_eq!(outline.entries[child].page_index, 3);
    assert_eq!(outline.entries[child].index, 1);
    outline.entries[root].bolded();
    outline.entries[child].italicized();
    assert!(outline.entries[root].bold && !outline.entries[root].italic);
    assert!(outline.entries[child].italic && !outline.entries[child].bold);
}

#[test]
fn generated_indices_advance() {
    let mut outline = Outline::new();
    assert_eq!(outline.generate_next_index(), 0);
    assert_eq!(outline.generate_next_index(), 1);
    let pos = outline.add_bookmark(None, 0, "x".to_string());
    assert_eq!(outline.entries[pos].index, 2);
}

#[test]
fn orientations_swap_dimensions() {
    let portrait = (Pt(100), Pt(200));
    let landscape = (Pt(200), Pt(100));
    assert_eq!(portrait.landscape(), landscape);
    assert_eq!(landscape.portrait(), portrait);
    assert_eq!(portrait.portrait(), portrait);
    assert_eq!(landscape.landscape(), landscape);
}

#[test]
fn margins_shape_the_content_box() {
    let margins = Margins::trbl(Pt(10), Pt(20), Pt(30), Pt(40));
    let page = Page::new((Pt(1000), Pt(2000)), Some(margins));
    assert_eq!(page.media_box.x1, Pt(0));
    assert_eq!(page.media_box.y2, Pt(2000));
    assert_eq!(page.content_box.x1, Pt(40));
    assert_eq!(page.content_box.y1, Pt(30));
    assert_eq!(page.content_box.x2, Pt(980));
    assert_eq!(page.content_box.y2, Pt(1990));

    let all = Margins::all(Pt(5));
    assert_eq!(all, Margins::trbl(Pt(5), Pt(5), Pt(5), Pt(5)));
    let sym = Margins::symmetric(Pt(1), Pt(2));
    assert_eq!(sym, Margins::trbl(Pt(1), Pt(2), Pt(1), Pt(2)));
    let gutter_even = Margins::empty().with_gutter(Pt(7), 0);
    assert_eq!(gutter_even.left, Pt(7));
    assert_eq!(gutter_even.right, Pt(0));
    let gutter_odd = Margins::empty().with_gutter(Pt(7), 1);
    assert_eq!(gutter_odd.left, Pt(0));
    assert_eq!(gutter_odd.right, Pt(7));
}

#[test]
fn colours_keep_their_components() {
    assert_eq!(Colour::new_rgb_bytes(1, 2, 3), Colour::RGB { r: 1, g: 2, b: 3 });
    assert_eq!(Colour::new_cmyk_bytes(4, 5, 6, 7), Colour::CMYK { c: 4, m: 5, y: 6, k: 7 });
    assert_eq!(Colour::new_grey_bytes(8), Colour::Grey { g: 8 });
    assert_eq!(Colour::black(), Colour::Grey { g: 0 });
}
