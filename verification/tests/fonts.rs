use zq_core::fonts::filter_fonts;
use zq_core::fonts::{font_display_name, font_entry, is_font_candidate, sort_font_entries, FontEntry};

fn entry(key: &str, display: &str) -> FontEntry {
    FontEntry { key: key.to_string(), display: display.to_string() }
}

#[test]
fn font_candidates() {
    assert!(is_font_candidate("TTF", "SimSun"));
    assert!(!is_font_candidate("ttf", "arialbd"));
    assert!(is_font_candidate("otf", "Abc"));
    assert!(!is_font_candidate("ttf", "timesi"));
    assert!(is_font_candidate("ttf", "ari"));
    assert!(!is_font_candidate("png", "x"));
    assert!(!is_font_candidate("ttc", "msyhl"));
}

#[test]
fn font_entries_need_font_data() {
    assert!(font_entry("x", b"not a font").is_none());
    assert!(font_entry("x", &[]).is_none());
}

#[test]
fn font_list_sorted_and_deduplicated() {
    let list = sort_font_entries(vec![entry("b", "Beta"), entry("a", "alpha"), entry("c", "ALPHA")]);
    let keys: Vec<&str> = list.iter().map(|f| f.key.as_str()).collect();
    assert_eq!(keys, vec!["a", "b"]);
    assert!(sort_font_entries(vec![]).is_empty());
}

#[test]
fn font_names_shown() {
    let list = vec![entry("b", "Beta"), entry("a", "Alpha")];
    assert_eq!(font_display_name(&list, "b"), "Beta");
    assert_eq!(font_display_name(&list, "zz"), "zz");
}

fn be16(v: &mut Vec<u8>, x: u16) {
    v.extend_from_slice(&x.to_be_bytes());
}

fn be32(v: &mut Vec<u8>, x: u32) {
    v.extend_from_slice(&x.to_be_bytes());
}

/// A minimal TrueType font: `head`, `hhea`, `maxp` and a naming table with the given
/// (name id, text) entries in Windows Unicode encoding.
fn tiny_font(names: &[(u16, &str)]) -> Vec<u8> {
    let mut head = Vec::new();
    be32(&mut head, 0x0001_0000);
    be32(&mut head, 0x0001_0000);
    be32(&mut head, 0);
    be32(&mut head, 0x5F0F_3CF5);
    be16(&mut head, 0);
    be16(&mut head, 1000);
    head.extend_from_slice(&[0; 16]);
    head.extend_from_slice(&[0; 8]);
    be16(&mut head, 0);
    be16(&mut head, 8);
    be16(&mut head, 2);
    be16(&mut head, 0);
    be16(&mut head, 0);
    assert_eq!(head.len(), 54);

    let mut hhea = vec![0u8; 34];
    hhea[1] = 1;
    be16(&mut hhea, 1);

    let mut maxp = Vec::new();
    be32(&mut maxp, 0x0000_5000);
    be16(&mut maxp, 1);

    let mut storage = Vec::new();
    let mut records = Vec::new();
    for (id, text) in names {
        let start = storage.len() as u16;
        for u in text.encode_utf16() {
            be16(&mut storage, u);
        }
        be16(&mut records, 3);
        be16(&mut records, 1);
        be16(&mut records, 0x0409);
        be16(&mut records, *id);
        be16(&mut records, storage.len() as u16 - start);
        be16(&mut records, start);
    }
    let mut name = Vec::new();
    be16(&mut name, 0);
    be16(&mut name, names.len() as u16);
    be16(&mut name, 6 + records.len() as u16);
    name.extend_from_slice(&records);
    name.extend_from_slice(&storage);

    let tables: [(&[u8; 4], &Vec<u8>); 4] = [(b"head", &head), (b"hhea", &hhea), (b"maxp", &maxp), (b"name", &name)];
    let mut font = Vec::new();
    be32(&mut font, 0x0001_0000);
    be16(&mut font, tables.len() as u16);
    be16(&mut font, 0);
    be16(&mut font, 0);
    be16(&mut font, 0);
    let mut offset = 12 + 16 * tables.len() as u32;
    for (tag, data) in &tables {
        font.extend_from_slice(*tag);
        be32(&mut font, 0);
        be32(&mut font, offset);
        be32(&mut font, data.len() as u32);
        offset += data.len() as u32;
    }
    for (_, data) in &tables {
        font.extend_from_slice(data);
    }
    font
}

#[test]
fn font_entry_reads_the_family_name() {
    let data = tiny_font(&[(4, "Full Name"), (1, "Test Sans"), (1, "Second")]);
    let e = font_entry("testsans", &data).unwrap();
    assert_eq!(e.key, "testsans");
    assert_eq!(e.display, "Test Sans");
    let unnamed = tiny_font(&[(4, "Full Name")]);
    let e = font_entry("plain", &unnamed).unwrap();
    assert_eq!(e.display, "plain");
}

#[test]
fn font_search_ignores_case() {
    let list = vec![entry("a", "SimSun"), entry("b", "Arial"), entry("c", "Microsoft YaHei")];
    assert_eq!(filter_fonts(&list, "SUN"), vec![0]);
    assert_eq!(filter_fonts(&list, "i"), vec![0, 1, 2]);
    assert_eq!(filter_fonts(&list, ""), vec![0, 1, 2]);
    assert!(filter_fonts(&list, "zz").is_empty());
}
