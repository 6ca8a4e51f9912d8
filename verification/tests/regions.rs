use svd_blocks::block::locate_regions;
use svd_blocks::field::{Field, FieldType, RegisterBlockField};
use svd_blocks::order::sort_by_offset;
use svd_blocks::regions::{FieldRegions, Region};

fn field(name: &str, offset: u32, size: u32) -> RegisterBlockField {
    described(name, name, offset, size)
}

fn described(name: &str, description: &str, offset: u32, size: u32) -> RegisterBlockField {
    RegisterBlockField {
        field: Field {
            ident: Some(name.to_string()),
            ty: FieldType::Path(name.to_uppercase()),
        },
        description: description.to_string(),
        offset,
        size,
    }
}

fn region(fields: Vec<RegisterBlockField>) -> Region {
    Region { fields, offset: 0, end: 4 }
}

fn names(r: &Region) -> Vec<String> {
    r.fields.iter().map(|f| f.field.ident.clone().unwrap()).collect()
}

fn shape(r: &FieldRegions) -> Vec<(u32, u32, Vec<String>)> {
    r.regions.iter().map(|r| (r.offset, r.end, names(r))).collect()
}

#[test]
fn common_prefix_is_the_longest() {
    let r = region(vec![field("intenset", 0, 32), field("intenclr", 0, 32), field("inten", 0, 32)]);
    assert_eq!(r.common_prefix(), Some("inten".to_string()));
}

#[test]
fn common_prefix_stops_at_the_first_difference() {
    let r = region(vec![field("abcx", 0, 32), field("abdx", 0, 32)]);
    assert_eq!(r.common_prefix(), Some("ab".to_string()));
}

#[test]
fn common_prefix_of_one_field_is_its_name() {
    assert_eq!(region(vec![field("ctrl", 0, 32)]).common_prefix(), Some("ctrl".to_string()));
}

#[test]
fn common_prefix_of_different_names_is_none() {
    let r = region(vec![field("data", 0, 32), field("ctrl", 0, 32)]);
    assert_eq!(r.common_prefix(), None);
}

#[test]
fn common_prefix_needs_every_name() {
    let mut unnamed = field("data", 0, 32);
    unnamed.field.ident = None;
    assert_eq!(region(vec![field("data", 0, 32), unnamed]).common_prefix(), None);
}

#[test]
fn common_prefix_counts_characters_not_bytes() {
    let r = region(vec![field("\u{e4}\u{f6}1", 0, 32), field("\u{e4}\u{f6}2", 0, 32)]);
    assert_eq!(r.common_prefix(), Some("\u{e4}\u{f6}".to_string()));
}

#[test]
fn equal_descriptions_are_joined_once() {
    let r = region(vec![
        described("a", "Counter", 0, 32),
        described("b", "Counter", 0, 16),
        described("c", "Counter", 0, 8),
    ]);
    assert_eq!(r.description(), "Counter");
}

#[test]
fn different_descriptions_are_joined_with_spaces() {
    let r = region(vec![
        described("a", "Counter", 0, 32),
        described("b", "", 0, 8),
        described("c", "Compare", 0, 16),
        described("d", "Counter", 0, 8),
    ]);
    assert_eq!(r.description(), "Counter  Compare Counter");
    assert_eq!(region(vec![]).description(), "");
}

#[test]
fn fields_apart_stay_apart_and_in_order() {
    let mut r = FieldRegions::default();
    r.add(&field("c", 8, 32));
    r.add(&field("a", 0, 32));
    r.add(&field("b", 4, 32));
    assert_eq!(
        shape(&r),
        vec![
            (0, 4, vec!["a".to_string()]),
            (4, 8, vec!["b".to_string()]),
            (8, 12, vec!["c".to_string()]),
        ]
    );
}

#[test]
fn overlapping_fields_are_merged() {
    let mut r = FieldRegions::default();
    r.add(&field("wide", 0, 32));
    r.add(&field("high", 2, 16));
    r.add(&field("next", 4, 8));
    assert_eq!(
        shape(&r),
        vec![
            (0, 4, vec!["wide".to_string(), "high".to_string()]),
            (4, 5, vec!["next".to_string()]),
        ]
    );
}

#[test]
fn a_field_merges_all_regions_it_meets() {
    let mut r = FieldRegions::default();
    r.add(&field("a", 0, 16));
    r.add(&field("b", 4, 16));
    r.add(&field("far", 16, 8));
    r.add(&field("bridge", 1, 32));
    assert_eq!(
        shape(&r),
        vec![
            (0, 6, vec!["a".to_string(), "bridge".to_string(), "b".to_string()]),
            (16, 17, vec!["far".to_string()]),
        ]
    );
}

#[test]
fn equal_offsets_put_the_newest_field_first() {
    let mut r = FieldRegions::default();
    r.add(&field("old", 0, 32));
    r.add(&field("new", 0, 32));
    assert_eq!(shape(&r), vec![(0, 4, vec!["new".to_string(), "old".to_string()])]);
}

#[test]
fn empty_fields_get_in_the_way() {
    let mut r = FieldRegions::default();
    assert!(r.has_room_for(&field("a", 4, 0)));
    r.add(&field("a", 4, 0));
    assert!(!r.has_room_for(&field("b", 4, 8)));
    assert!(r.has_room_for(&field("b", 3, 16)));
}

#[test]
fn fields_end_within_the_address_space() {
    let r = FieldRegions::default();
    assert!(r.has_room_for(&field("a", u32::MAX - 4, 32)));
    assert!(!r.has_room_for(&field("a", u32::MAX - 3, 32)));
}

#[test]
fn regions_hold_every_field_that_was_added() {
    let fields = vec![
        field("a", 0, 32),
        field("b", 4, 32),
        field("c", 6, 32),
        field("c", 6, 32),
        field("d", 20, 8),
    ];
    let r = locate_regions(&fields);
    assert_eq!(
        shape(&r),
        vec![
            (0, 4, vec!["a".to_string()]),
            (4, 10, vec!["b".to_string(), "c".to_string(), "c".to_string()]),
            (20, 21, vec!["d".to_string()]),
        ]
    );
}

#[test]
fn sorting_by_offset_is_stable() {
    let sorted = sort_by_offset(vec![
        field("x", 4, 8),
        field("first", 0, 8),
        field("y", 4, 8),
        field("second", 0, 8),
    ]);
    let order: Vec<String> = sorted.iter().map(|f| f.description.clone()).collect();
    assert_eq!(order, vec!["first", "second", "x", "y"]);
}

#[test]
fn sorting_twice_changes_nothing() {
    let once = sort_by_offset(vec![field("b", 4, 8), field("a", 0, 8), field("c", 4, 16)]);
    let order: Vec<String> = once.iter().map(|f| f.description.clone()).collect();
    let twice = sort_by_offset(once);
    assert_eq!(order, vec!["a", "b", "c"]);
    assert_eq!(twice.iter().map(|f| f.description.clone()).collect::<Vec<_>>(), order);
}

#[test]
fn fields_apart_need_no_union() {
    let r = locate_regions(&vec![field("a", 0, 32), field("b", 4, 8), field("c", 100, 64)]);
    assert!(r.regions.iter().all(|region| region.fields.len() == 1));
    assert_eq!(r.regions.len(), 3);
}

#[test]
fn fields_with_bytes_always_find_room() {
    let mut r = FieldRegions::default();
    for (offset, size) in [(8, 32), (0, 8), (6, 64), (0, 8), (30, 16), (1, 8), (20, 128)] {
        let f = field("f", offset, size);
        assert!(r.has_room_for(&f));
        r.add(&f);
    }
    let ends: Vec<(u32, u32)> = r.regions.iter().map(|r| (r.offset, r.end)).collect();
    assert_eq!(ends, vec![(0, 1), (1, 2), (6, 14), (20, 36)]);
}

#[test]
fn fields_that_merely_touch_stay_apart() {
    let mut r = FieldRegions::default();
    r.add(&field("a", 0, 32));
    r.add(&field("c", 8, 32));
    r.add(&field("b", 4, 32));
    assert_eq!(r.regions.len(), 3);
    r.add(&field("over", 3, 16));
    assert_eq!(
        shape(&r),
        vec![
            (0, 8, vec!["a".to_string(), "over".to_string(), "b".to_string()]),
            (8, 12, vec!["c".to_string()]),
        ]
    );
}

#[test]
fn the_order_of_adding_does_not_matter() {
    let fields = [
        field("a", 0, 32),
        field("b", 2, 32),
        field("c", 6, 16),
        field("d", 7, 8),
        field("d", 7, 8),
        field("e", 20, 64),
    ];
    let partition = |order: &[usize]| -> Vec<(u32, u32, Vec<String>)> {
        let list: Vec<RegisterBlockField> = order.iter().map(|i| fields[*i].clone()).collect();
        let mut regions = shape(&locate_regions(&list));
        for region in regions.iter_mut() {
            region.2.sort();
        }
        regions
    };
    let want = partition(&[0, 1, 2, 3, 4, 5]);
    assert_eq!(want.len(), 3);
    assert_eq!(want[1], (6, 8, vec!["c".to_string(), "d".to_string(), "d".to_string()]));
    for order in [[5, 4, 3, 2, 1, 0], [3, 0, 5, 2, 4, 1], [1, 2, 0, 4, 5, 3]] {
        assert_eq!(partition(&order), want);
    }
}
