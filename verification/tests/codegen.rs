use pycc::codegen_c::translate::{c_accepts, Backend, CBackend, FileModule};
use pycc::codegen_c::encode_base32;
use pycc::compile::{generate_ast, generate_ir};

const HEADERS: &str = "#include <math.h>\n#include <stdbool.h>\n#include <stdint.h>\n";

#[test]
fn base32_names_use_the_crockford_alphabet() {
    assert_eq!(encode_base32(""), "");
    assert_eq!(encode_base32("jia 参 i64 结"), "D9MP2875HY120T9P6GGEFEWK");
    assert_ne!(encode_base32("f"), "f");
}

#[test]
fn an_empty_module_has_the_headers() {
    let module = CBackend::init(()).module("m", &Vec::new()).expect("writing never fails");
    assert_eq!(module.name(), "m");
    assert_eq!(module.c_file(), HEADERS);
    assert_eq!(module.h_file(), HEADERS);
    let fresh = FileModule::new("n".to_string());
    assert_eq!(fresh.c_file(), HEADERS);
}

#[test]
fn an_exported_function_in_c() {
    let src = "dao3chu1 zheng3 jia can1 zheng3 x jie2 han2 fan3 x jia1 1 fen1 jie2";
    let items = generate_ast(src).items.expect("the source parses");
    let ir = generate_ir(&items).expect("the source is valid");
    assert!(c_accepts(&ir));
    let module = CBackend::init(()).module("m", &ir).expect("writing never fails");
    let sign = "int64_t _D9MP2875HY120T9P6GGEFEWK(int64_t x)";
    assert_eq!(module.c_file(), format!("{HEADERS}{sign}{{int64_t  0=x+1;return  0;}}"));
    assert_eq!(module.h_file(), format!("{HEADERS}{sign};"));
}

#[test]
fn a_loop_in_c() {
    let src = "
zheng3 f can1 zheng3 n jie2
han2
    zheng3 i wei2 0 fen1
    chong2 can1 i xiao3 n jie2 han2 i wei2 i jia1 1 fen1 jie2
    fan3 i fen1
jie2";
    let items = generate_ast(src).items.expect("the source parses");
    let ir = generate_ir(&items).expect("the source is valid");
    assert!(c_accepts(&ir));
    let module = CBackend::init(()).module("m", &ir).expect("writing never fails");
    let c = module.c_file();
    // the loop takes three labels: its start, its body and after it
    assert!(c.contains("L0:;"));
    assert!(c.contains("goto L1;else goto L2;L1:;"));
    assert!(c.contains("goto L0;L2:;"));
    // a function that is not exported is not declared in the header
    assert_eq!(module.h_file(), HEADERS);
}
