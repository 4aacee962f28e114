use emul_4leaf::exports::ProxyExports;
use emul_4leaf::rare::Rare;

#[test]
fn proxy_symbols_get_stable_consecutive_addresses() {
    let mut p = ProxyExports::new(0x7000_0000);
    let a = p.register_proxy_symbol("Rare.dll", "__RContext_Init");
    let b = p.register_proxy_symbol("Rare.dll", "__RSound_Play");
    assert_eq!((a, b), (0x7000_0000, 0x7000_0004));
    assert_eq!(p.register_proxy_symbol("Rare.dll", "__RContext_Init"), a);
    assert_eq!(p.next_address, 0x7000_0008);
    assert_eq!(p.get("Rare.dll!__RSound_Play"), Some(b));
    assert_eq!(p.symbol_at(a), Some("Rare.dll!__RContext_Init".to_string()));
    assert_eq!(p.symbol_at(0x1234), None);
}

#[test]
fn vtable_keys_are_plain_exports() {
    let mut p = ProxyExports::new(0x100);
    assert_eq!(p.get("__RContext_VTable"), None);
    p.insert("__RContext_VTable", 0x5000);
    p.insert("__RContext_VTable", 0x6000);
    assert_eq!(p.get("__RContext_VTable"), Some(0x6000));
    assert_eq!(p.symbol_at(0x6000), None);
    assert_eq!(p.exports.len(), 1);
}

#[test]
fn rare_exports_resolve_by_either_name() {
    let mut p = ProxyExports::new(0x100);
    let a = Rare::resolve_export(&mut p, "Rare_PlaySound").unwrap();
    let b = Rare::resolve_export(&mut p, "?Rare_PlaySound@@YAXPAVRSound@@@Z").unwrap();
    assert_eq!(a, b);
    assert_eq!(p.symbol_at(a), Some("Rare.dll!?Rare_PlaySound@@YAXPAVRSound@@@Z".to_string()));
    assert_eq!(Rare::resolve_export(&mut p, "Rare_Nothing"), None);
    assert_eq!(p.next_address, 0x104);
}
