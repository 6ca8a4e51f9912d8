use svd_blocks::cluster::Rendered;
use svd_blocks::derive::{
    derive_peripheral, derive_reg_info, derive_registers, missing_registers, only_clusters,
    only_registers,
};
use svd_blocks::device::{
    Access, ArrayInfo, Cluster, ClusterInfo, Defaults, Interrupt, Peripheral, Register,
    RegisterCluster, RegisterInfo, WriteConstraint,
};
use svd_blocks::error::Error;
use svd_blocks::fits::{can_render, checked_render};
use svd_blocks::names::SvdConventions;
use svd_blocks::render::{complete, register_groups, render, warnings};

const STYLE: SvdConventions = SvdConventions;

const DEFAULTS: Defaults =
    Defaults { size: Some(32), reset_value: None, reset_mask: None, access: None };

const NO_DEFAULTS: Defaults =
    Defaults { size: None, reset_value: None, reset_mask: None, access: None };

fn info(name: &str, offset: u32) -> RegisterInfo {
    RegisterInfo {
        name: name.to_string(),
        description: format!("About {}", name),
        address_offset: offset,
        size: None,
        access: None,
        reset_value: None,
        reset_mask: None,
        fields: None,
        write_constraint: None,
        derived_from: None,
    }
}

fn derived(name: &str, offset: u32, from: &str) -> RegisterInfo {
    RegisterInfo { derived_from: Some(from.to_string()), ..info(name, offset) }
}

fn single(name: &str, offset: u32) -> RegisterCluster {
    RegisterCluster::Register(Register::Single(info(name, offset)))
}

fn peripheral(name: &str, registers: Option<Vec<RegisterCluster>>) -> Peripheral {
    Peripheral {
        name: name.to_string(),
        group_name: None,
        description: None,
        base_address: 0x4000_0000,
        interrupt: vec![],
        registers,
        derived_from: None,
    }
}

fn tokens(text: &str) -> quote::Tokens {
    let mut t = quote::Tokens::new();
    t.append(text);
    t
}

/// The code of each register, made of its name.
fn registers_of(p: &Peripheral, all: &[Peripheral]) -> Vec<Rendered> {
    register_groups(p, all)
        .iter()
        .map(|group| {
            group
                .iter()
                .map(|r| Ok(vec![tokens(&format!("pub struct {} ;", r.info().name))]))
                .collect()
        })
        .collect()
}

fn run(p: &Peripheral, all: &[Peripheral]) -> Vec<String> {
    let rendered = registers_of(p, all);
    assert!(can_render(p, all, &DEFAULTS, &rendered, &STYLE));
    render(p, all, &DEFAULTS, &rendered, &STYLE)
        .unwrap()
        .iter()
        .map(|t| t.as_str().to_string())
        .collect()
}

fn peripheral_struct(doc: &str, name: &str, base: &str, address: &str) -> String {
    format!(
        "# [ doc = \"{doc}\" ] pub struct {name} {{ _marker : PhantomData < * const ( ) > }} \
         unsafe impl Send for {name} {{ }} \
         impl {name} {{ # [ doc = r\" Returns a pointer to the register block\" ] \
         pub fn ptr ( ) -> * const {base} :: RegisterBlock {{ {address} as * const _ }} }} \
         impl Deref for {name} {{ type Target = {base} :: RegisterBlock ; \
         fn deref ( & self ) -> & {base} :: RegisterBlock {{ unsafe {{ & * {name} :: ptr ( ) }} }} }}",
        doc = doc,
        name = name,
        base = base,
        address = address,
    )
}

#[test]
fn a_peripheral_is_a_struct_and_a_module() {
    let mut p = peripheral("Timer", Some(vec![single("CR", 0), single("SR", 8)]));
    p.description = Some("Basic   timer".to_string());
    p.base_address = 0x4000_1c00;
    let out = run(&p, &[]);
    assert_eq!(out.len(), 2);
    assert_eq!(out[0], peripheral_struct("Basic timer", "TIMER", "timer", "0x4000_1c00"));
    assert_eq!(
        out[1],
        "# [ doc = \"Basic timer\" ] pub mod timer { \
         # [ doc = r\" Register block\" ] # [ repr ( C ) ] pub struct RegisterBlock { \
         # [ doc = \"0x00 - About CR\" ] pub cr : CR , \
         _reserved1 : [ u8 ; 4usize ] , \
         # [ doc = \"0x08 - About SR\" ] pub sr : SR , } \
         pub struct CR ; pub struct SR ; }"
    );
}

#[test]
fn a_peripheral_without_description_is_described_by_its_name() {
    let p = peripheral("TIMER", Some(vec![single("CR", 0)]));
    assert_eq!(run(&p, &[])[0], peripheral_struct("TIMER", "TIMER", "timer", "0x4000_0000"));
}

#[test]
fn a_peripheral_without_registers_has_no_code() {
    assert_eq!(run(&peripheral("A", None), &[]).len(), 0);
    assert_eq!(run(&peripheral("A", Some(vec![])), &[]).len(), 0);
    let lost = RegisterCluster::Register(Register::Single(derived("X", 0, "NONE")));
    assert_eq!(run(&peripheral("A", Some(vec![lost])), &[]).len(), 0);
}

#[test]
fn a_derived_peripheral_shares_the_block_of_its_ancestor() {
    let mut first = peripheral("UartA", Some(vec![single("CR", 0)]));
    first.description = Some("Serial".to_string());
    let mut second = peripheral("UartB", None);
    second.base_address = 0x4000_0400;
    second.derived_from = Some("UartA".to_string());
    let all = vec![first, second.clone()];
    let out = run(&second, &all);
    assert_eq!(out, vec![peripheral_struct("Serial", "UARTB", "uart_a", "0x4000_0400")]);
    assert_eq!(register_groups(&second, &all).len(), 0);
    assert_eq!(warnings(&second, &all).len(), 0);
}

#[test]
fn a_derived_peripheral_with_registers_has_its_own_module() {
    let first = peripheral("A", Some(vec![single("CR", 0)]));
    let mut second = peripheral("B", Some(vec![single("DR", 0)]));
    second.derived_from = Some("A".to_string());
    let out = run(&second, &[first]);
    assert_eq!(out.len(), 2);
    assert_eq!(out[0], peripheral_struct("B", "B", "b", "0x4000_0000"));
    assert!(out[1].contains("pub dr : DR"));
    assert!(!out[1].contains("CR"));
}

#[test]
fn the_first_peripheral_of_a_name_is_the_ancestor() {
    let mut one = peripheral("A", Some(vec![single("CR", 0)]));
    one.description = Some("one".to_string());
    let mut two = peripheral("A", Some(vec![single("CR", 0)]));
    two.description = Some("two".to_string());
    let mut p = peripheral("B", None);
    p.derived_from = Some("A".to_string());
    assert_eq!(complete(&p, &[one, two]).description, Some("one".to_string()));
    assert_eq!(complete(&p, &[]).description, None);
}

#[test]
fn a_peripheral_with_a_missing_ancestor_is_skipped() {
    let mut p = peripheral("B", Some(vec![single("CR", 0)]));
    p.derived_from = Some("A".to_string());
    assert_eq!(run(&p, &[]).len(), 0);
    assert_eq!(
        warnings(&p, &[]),
        vec!["Couldn't find derivedFrom original: A for B, skipping".to_string()]
    );
}

#[test]
fn registers_with_a_missing_ancestor_are_dropped() {
    let lost = RegisterCluster::Register(Register::Single(derived("X", 4, "NONE")));
    let p = peripheral("A", Some(vec![single("CR", 0), lost]));
    let out = run(&p, &[]);
    assert!(!out[1].contains('X'));
    assert_eq!(
        warnings(&p, &[]),
        vec!["register X derivedFrom missing register NONE".to_string()]
    );
}

#[test]
fn derived_registers_take_the_shape_of_their_ancestor() {
    let list = vec![
        RegisterCluster::Register(Register::Array(
            info("OUT%s", 0),
            ArrayInfo { dim: 2, dim_increment: 4, dim_index: None },
        )),
        RegisterCluster::Register(Register::Single(derived("IN%s", 8, "OUT%s"))),
    ];
    let p = peripheral("A", Some(list));
    let out = run(&p, &[]);
    assert!(out[1].contains("pub out : [ OUT ; 2 ] ,"));
    assert!(out[1].contains("# [ doc = \"0x08 - About IN%s\" ] pub in_ : [ IN ; 2 ] ,"));
}

#[test]
fn the_last_register_of_a_name_is_the_ancestor() {
    let mut one = info("A", 0);
    one.size = Some(8);
    let mut two = info("A", 4);
    two.size = Some(16);
    let list = vec![
        RegisterCluster::Register(Register::Single(one)),
        RegisterCluster::Register(Register::Single(derived("B", 8, "A"))),
        RegisterCluster::Register(Register::Single(two)),
    ];
    let done = derive_registers(&only_registers(&list));
    assert_eq!(done[1].info().size, Some(16));
    assert_eq!(done[1].info().address_offset, 8);
    assert_eq!(done.len(), 3);
}

#[test]
fn registers_keep_what_they_say_themselves() {
    let mut ancestor = info("A", 0);
    ancestor.size = Some(8);
    ancestor.access = Some(Access::ReadOnly);
    ancestor.reset_value = Some(1);
    ancestor.reset_mask = Some(2);
    ancestor.fields = Some(3);
    ancestor.write_constraint = Some(WriteConstraint::WriteAsRead(true));
    let full = derive_reg_info(&derived("B", 4, "A"), &ancestor);
    assert_eq!(full.name, "B");
    assert_eq!(full.description, "About B");
    assert_eq!(full.address_offset, 4);
    assert_eq!(full.size, Some(8));
    assert_eq!(full.access, Some(Access::ReadOnly));
    assert_eq!(full.reset_value, Some(1));
    assert_eq!(full.reset_mask, Some(2));
    assert_eq!(full.fields, Some(3));
    assert_eq!(full.write_constraint, Some(WriteConstraint::WriteAsRead(true)));
    let mut own = derived("B", 4, "A");
    own.size = Some(16);
    own.access = Some(Access::WriteOnly);
    let kept = derive_reg_info(&own, &ancestor);
    assert_eq!(kept.size, Some(16));
    assert_eq!(kept.access, Some(Access::WriteOnly));
    assert_eq!(kept.reset_value, Some(1));
}

#[test]
fn peripherals_keep_what_they_say_themselves() {
    let irq = |value: u32| Interrupt { name: "IRQ".to_string(), description: None, value };
    let mut other = peripheral("A", Some(vec![single("CR", 0)]));
    other.group_name = Some("G".to_string());
    other.description = Some("D".to_string());
    other.interrupt = vec![irq(1)];
    let mut p = peripheral("B", None);
    p.base_address = 7;
    let full = derive_peripheral(&p, &other);
    assert_eq!(full.name, "B");
    assert_eq!(full.base_address, 7);
    assert_eq!(full.group_name, Some("G".to_string()));
    assert_eq!(full.description, Some("D".to_string()));
    assert_eq!(full.interrupt[0].value, 1);
    assert_eq!(full.registers.unwrap().len(), 1);
    p.group_name = Some("H".to_string());
    p.description = Some("E".to_string());
    p.interrupt = vec![irq(2), irq(3)];
    p.registers = Some(vec![]);
    let kept = derive_peripheral(&p, &other);
    assert_eq!(kept.group_name, Some("H".to_string()));
    assert_eq!(kept.description, Some("E".to_string()));
    assert_eq!(kept.interrupt.len(), 2);
    assert_eq!(kept.registers.unwrap().len(), 0);
}

fn with_clusters() -> Peripheral {
    let inner = Cluster::Single(ClusterInfo {
        name: "IN".to_string(),
        description: "Inner".to_string(),
        address_offset: 4,
        size: None,
        children: vec![single("X", 0)],
    });
    let outer = Cluster::Single(ClusterInfo {
        name: "CH".to_string(),
        description: "Outer".to_string(),
        address_offset: 4,
        size: None,
        children: vec![single("A", 0), RegisterCluster::Cluster(inner)],
    });
    peripheral("P", Some(vec![RegisterCluster::Cluster(outer), single("CR", 0)]))
}

#[test]
fn registers_are_grouped_by_what_holds_them() {
    let names: Vec<Vec<String>> = register_groups(&with_clusters(), &[])
        .iter()
        .map(|group| group.iter().map(|r| r.info().name.clone()).collect())
        .collect();
    assert_eq!(names, vec![vec!["A".to_string()], vec!["X".to_string()], vec!["CR".to_string()]]);
}

#[test]
fn clusters_stand_between_the_block_and_the_registers() {
    let out = run(&with_clusters(), &[]);
    assert_eq!(
        out[1],
        "# [ doc = \"P\" ] pub mod p { \
         # [ doc = r\" Register block\" ] # [ repr ( C ) ] pub struct RegisterBlock { \
         # [ doc = \"0x00 - About CR\" ] pub cr : CR , \
         # [ doc = \"0x04 - Outer\" ] pub ch : CH , } \
         # [ doc = r\" Register block\" ] # [ repr ( C ) ] pub struct CH { \
         # [ doc = \"0x00 - About A\" ] pub a : self::ch::A , \
         # [ doc = \"0x04 - Inner\" ] pub in_ : IN , } \
         # [ doc = r\" Register block\" ] # [ doc = \"Outer\" ] pub mod ch { \
         pub struct A ; \
         # [ doc = r\" Register block\" ] # [ repr ( C ) ] pub struct IN { \
         # [ doc = \"0x00 - About X\" ] pub x : self::in_::X , } \
         # [ doc = r\" Register block\" ] # [ doc = \"Inner\" ] pub mod in_ { pub struct X ; } } \
         pub struct CR ; }"
    );
}

#[test]
fn errors_come_in_the_order_of_the_code() {
    let p = with_clusters();
    // Without a size, the first block fails.
    let mut rendered = registers_of(&p, &[]);
    let e = render(&p, &[], &NO_DEFAULTS, &rendered, &STYLE).unwrap_err();
    assert_eq!(e.message(), "Register CR has no `size` field");
    // The registers of a cluster come before those of the peripheral.
    rendered[2][0] = Err(Error::Register("last".to_string()));
    let e = render(&p, &[], &DEFAULTS, &rendered, &STYLE).unwrap_err();
    assert_eq!(e.message(), "last");
    rendered[1][0] = Err(Error::Register("inner".to_string()));
    let e = render(&p, &[], &DEFAULTS, &rendered, &STYLE).unwrap_err();
    assert_eq!(e.message(), "inner");
    rendered[0][0] = Err(Error::Register("first".to_string()));
    let e = render(&p, &[], &DEFAULTS, &rendered, &STYLE).unwrap_err();
    assert_eq!(e.message(), "first");
}

#[test]
fn checked_rendering_is_rendering_where_it_is_possible() {
    let p = with_clusters();
    let rendered = registers_of(&p, &[]);
    let code = checked_render(&p, &[], &DEFAULTS, &rendered, &STYLE).unwrap().unwrap();
    let plain = render(&p, &[], &DEFAULTS, &rendered, &STYLE).unwrap();
    assert_eq!(code, plain);
    assert_eq!(code.len(), 2);
    // The code of a register is missing.
    assert!(checked_render(&p, &[], &DEFAULTS, &vec![], &STYLE).is_none());
    let mut short = registers_of(&p, &[]);
    short[1].clear();
    assert!(checked_render(&p, &[], &DEFAULTS, &short, &STYLE).is_none());
    // A register behind the address space.
    let far = peripheral("F", Some(vec![single("CR", u32::MAX)]));
    let rendered = registers_of(&far, &[]);
    assert!(checked_render(&far, &[], &DEFAULTS, &rendered, &STYLE).is_none());
    // A cluster whose own block cannot be laid out.
    let inner = Cluster::Single(ClusterInfo {
        name: "IN".to_string(),
        description: "Inner".to_string(),
        address_offset: 0,
        size: Some(32),
        children: vec![single("X", u32::MAX)],
    });
    let deep = peripheral("D", Some(vec![RegisterCluster::Cluster(inner)]));
    let rendered = registers_of(&deep, &[]);
    assert!(checked_render(&deep, &[], &DEFAULTS, &rendered, &STYLE).is_none());
}

#[test]
fn deriving_twice_changes_nothing() {
    let mut other = peripheral("A", Some(vec![single("CR", 0)]));
    other.description = Some("D".to_string());
    let once = derive_peripheral(&peripheral("B", None), &other);
    let twice = derive_peripheral(&once, &other);
    assert_eq!(format!("{:?}", once), format!("{:?}", twice));
    assert_eq!(twice.description, Some("D".to_string()));
}

#[test]
fn every_register_is_kept_or_told_of() {
    let list = vec![
        single("A", 0),
        RegisterCluster::Register(Register::Single(derived("B", 4, "A"))),
        RegisterCluster::Register(Register::Single(derived("C", 8, "Z"))),
        RegisterCluster::Register(Register::Single(derived("D", 12, "C"))),
    ];
    let found = only_registers(&list);
    let kept: Vec<String> =
        derive_registers(&found).iter().map(|r| r.info().name.clone()).collect();
    assert_eq!(kept, vec!["A", "B", "D"]);
    assert_eq!(
        missing_registers(&found),
        vec!["register C derivedFrom missing register Z".to_string()]
    );
}

#[test]
fn nodes_are_told_apart() {
    let p = with_clusters();
    let list = p.registers.unwrap();
    assert_eq!(only_registers(&list).len(), 1);
    let clusters = only_clusters(&list);
    assert_eq!(clusters.len(), 1);
    assert_eq!(clusters[0].info().name, "CH");
}
