use qrism::builder::qr::{Module, QR};
use qrism::metadata::{Color, ECLevel, Version};


#[test]
fn test_index_wrap() {
    let mut qr = QR::new(Version::Normal(1), ECLevel::L, false);
    let w = qr.width() as i32;
    qr.set(-1, -1, Module::Func(Color::Black));
    assert_eq!(qr.get(w - 1, w - 1), Module::Func(Color::Black));
    qr.set(0, 0, Module::Func(Color::Black));
    assert_eq!(qr.get(-w, -w), Module::Func(Color::Black));
}





#[test]
fn test_finder_pattern_qr() {
    let mut qr = QR::new(Version::Normal(1), ECLevel::L, false);
    qr.draw_finder_patterns();
    assert_eq!(
        qr.to_debug_str(),
        "\n\
         fffffffF.....Ffffffff\n\
         fFFFFFfF.....FfFFFFFf\n\
         fFfffFfF.....FfFfffFf\n\
         fFfffFfF.....FfFfffFf\n\
         fFfffFfF.....FfFfffFf\n\
         fFFFFFfF.....FfFFFFFf\n\
         fffffffF.....Ffffffff\n\
         FFFFFFFF.....FFFFFFFF\n\
         .....................\n\
         .....................\n\
         .....................\n\
         .....................\n\
         .....................\n\
         FFFFFFFF.............\n\
         fffffffF.............\n\
         fFFFFFfF.............\n\
         fFfffFfF.............\n\
         fFfffFfF.............\n\
         fFfffFfF.............\n\
         fFFFFFfF.............\n\
         fffffffF.............\n"
    );
}

#[test]
fn test_timing_pattern_1() {
    let mut qr = QR::new(Version::Normal(1), ECLevel::L, false);
    qr.draw_timing_pattern();
    assert_eq!(
        qr.to_debug_str(),
        "\n\
         .....................\n\
         .....................\n\
         .....................\n\
         .....................\n\
         .....................\n\
         .....................\n\
         ........fFfFf........\n\
         .....................\n\
         ......f..............\n\
         ......F..............\n\
         ......f..............\n\
         ......F..............\n\
         ......f..............\n\
         .....................\n\
         .....................\n\
         .....................\n\
         .....................\n\
         .....................\n\
         .....................\n\
         .....................\n\
         .....................\n"
    );
}

#[test]
fn test_alignment_pattern_1() {
    let mut qr = QR::new(Version::Normal(1), ECLevel::L, false);
    qr.draw_finder_patterns();
    qr.draw_alignment_patterns();
    assert_eq!(
        qr.to_debug_str(),
        "\n\
         fffffffF.....Ffffffff\n\
         fFFFFFfF.....FfFFFFFf\n\
         fFfffFfF.....FfFfffFf\n\
         fFfffFfF.....FfFfffFf\n\
         fFfffFfF.....FfFfffFf\n\
         fFFFFFfF.....FfFFFFFf\n\
         fffffffF.....Ffffffff\n\
         FFFFFFFF.....FFFFFFFF\n\
         .....................\n\
         .....................\n\
         .....................\n\
         .....................\n\
         .....................\n\
         FFFFFFFF.............\n\
         fffffffF.............\n\
         fFFFFFfF.............\n\
         fFfffFfF.............\n\
         fFfffFfF.............\n\
         fFfffFfF.............\n\
         fFFFFFfF.............\n\
         fffffffF.............\n"
    );
}

#[test]
fn test_alignment_pattern_3() {
    let mut qr = QR::new(Version::Normal(3), ECLevel::L, false);
    qr.draw_finder_patterns();
    qr.draw_alignment_patterns();
    assert_eq!(
        qr.to_debug_str(),
        "\n\
         fffffffF.............Ffffffff\n\
         fFFFFFfF.............FfFFFFFf\n\
         fFfffFfF.............FfFfffFf\n\
         fFfffFfF.............FfFfffFf\n\
         fFfffFfF.............FfFfffFf\n\
         fFFFFFfF.............FfFFFFFf\n\
         fffffffF.............Ffffffff\n\
         FFFFFFFF.............FFFFFFFF\n\
         .............................\n\
         .............................\n\
         .............................\n\
         .............................\n\
         .............................\n\
         .............................\n\
         .............................\n\
         .............................\n\
         .............................\n\
         .............................\n\
         .............................\n\
         .............................\n\
         ....................fffff....\n\
         FFFFFFFF............fFFFf....\n\
         fffffffF............fFfFf....\n\
         fFFFFFfF............fFFFf....\n\
         fFfffFfF............fffff....\n\
         fFfffFfF.....................\n\
         fFfffFfF.....................\n\
         fFFFFFfF.....................\n\
         fffffffF.....................\n"
    );
}

#[test]
fn test_alignment_pattern_7() {
    let mut qr = QR::new(Version::Normal(7), ECLevel::L, false);
    qr.draw_finder_patterns();
    qr.draw_alignment_patterns();
    assert_eq!(
        qr.to_debug_str(),
        "\n\
         fffffffF.............................Ffffffff\n\
         fFFFFFfF.............................FfFFFFFf\n\
         fFfffFfF.............................FfFfffFf\n\
         fFfffFfF.............................FfFfffFf\n\
         fFfffFfF............fffff............FfFfffFf\n\
         fFFFFFfF............fFFFf............FfFFFFFf\n\
         fffffffF............fFfFf............Ffffffff\n\
         FFFFFFFF............fFFFf............FFFFFFFF\n\
         ....................fffff....................\n\
         .............................................\n\
         .............................................\n\
         .............................................\n\
         .............................................\n\
         .............................................\n\
         .............................................\n\
         .............................................\n\
         .............................................\n\
         .............................................\n\
         .............................................\n\
         .............................................\n\
         ....fffff...........fffff...........fffff....\n\
         ....fFFFf...........fFFFf...........fFFFf....\n\
         ....fFfFf...........fFfFf...........fFfFf....\n\
         ....fFFFf...........fFFFf...........fFFFf....\n\
         ....fffff...........fffff...........fffff....\n\
         .............................................\n\
         .............................................\n\
         .............................................\n\
         .............................................\n\
         .............................................\n\
         .............................................\n\
         .............................................\n\
         .............................................\n\
         .............................................\n\
         .............................................\n\
         .............................................\n\
         ....................fffff...........fffff....\n\
         FFFFFFFF............fFFFf...........fFFFf....\n\
         fffffffF............fFfFf...........fFfFf....\n\
         fFFFFFfF............fFFFf...........fFFFf....\n\
         fFfffFfF............fffff...........fffff....\n\
         fFfffFfF.....................................\n\
         fFfffFfF.....................................\n\
         fFFFFFfF.....................................\n\
         fffffffF.....................................\n"
    );
}

#[test]
fn test_all_function_patterns() {
    let mut qr = QR::new(Version::Normal(3), ECLevel::L, false);
    qr.draw_all_function_patterns();
    assert_eq!(
        qr.to_debug_str(),
        "\n\
         fffffffF.............Ffffffff\n\
         fFFFFFfF.............FfFFFFFf\n\
         fFfffFfF.............FfFfffFf\n\
         fFfffFfF.............FfFfffFf\n\
         fFfffFfF.............FfFfffFf\n\
         fFFFFFfF.............FfFFFFFf\n\
         fffffffFfFfFfFfFfFfFfFfffffff\n\
         FFFFFFFF.............FFFFFFFF\n\
         ......f......................\n\
         ......F......................\n\
         ......f......................\n\
         ......F......................\n\
         ......f......................\n\
         ......F......................\n\
         ......f......................\n\
         ......F......................\n\
         ......f......................\n\
         ......F......................\n\
         ......f......................\n\
         ......F......................\n\
         ......f.............fffff....\n\
         FFFFFFFF............fFFFf....\n\
         fffffffF............fFfFf....\n\
         fFFFFFfF............fFFFf....\n\
         fFfffFfF............fffff....\n\
         fFfffFfF.....................\n\
         fFfffFfF.....................\n\
         fFFFFFfF.....................\n\
         fffffffF.....................\n"
    );
}

#[test]
fn test_version_info_1() {
    let mut qr = QR::new(Version::Normal(1), ECLevel::L, false);
    qr.draw_version_info();
    assert_eq!(
        qr.to_debug_str(),
        "\n\
         .....................\n\
         .....................\n\
         .....................\n\
         .....................\n\
         .....................\n\
         .....................\n\
         .....................\n\
         .....................\n\
         .....................\n\
         .....................\n\
         .....................\n\
         .....................\n\
         .....................\n\
         .....................\n\
         .....................\n\
         .....................\n\
         .....................\n\
         .....................\n\
         .....................\n\
         .....................\n\
         .....................\n"
    );
}

#[test]
fn test_version_info_7() {
    let mut qr = QR::new(Version::Normal(7), ECLevel::L, false);
    qr.draw_version_info();
    assert_eq!(
        qr.to_debug_str(),
        "\n\
         ..................................VVv........\n\
         ..................................VvV........\n\
         ..................................VvV........\n\
         ..................................Vvv........\n\
         ..................................vvv........\n\
         ..................................VVV........\n\
         .............................................\n\
         .............................................\n\
         .............................................\n\
         .............................................\n\
         .............................................\n\
         .............................................\n\
         .............................................\n\
         .............................................\n\
         .............................................\n\
         .............................................\n\
         .............................................\n\
         .............................................\n\
         .............................................\n\
         .............................................\n\
         .............................................\n\
         .............................................\n\
         .............................................\n\
         .............................................\n\
         .............................................\n\
         .............................................\n\
         .............................................\n\
         .............................................\n\
         .............................................\n\
         .............................................\n\
         .............................................\n\
         .............................................\n\
         .............................................\n\
         .............................................\n\
         VVVVvV.......................................\n\
         VvvvvV.......................................\n\
         vVVvvV.......................................\n\
         .............................................\n\
         .............................................\n\
         .............................................\n\
         .............................................\n\
         .............................................\n\
         .............................................\n\
         .............................................\n\
         .............................................\n"
    );
}

#[test]
fn test_reserve_format_info_qr() {
    let mut qr = QR::new(Version::Normal(1), ECLevel::L, false);
    qr.reserve_format_area();
    assert_eq!(
        qr.to_debug_str(),
        "\n\
         ........m............\n\
         ........m............\n\
         ........m............\n\
         ........m............\n\
         ........m............\n\
         ........m............\n\
         .....................\n\
         ........m............\n\
         mmmmmm.mm....mmmmmmmm\n\
         .....................\n\
         .....................\n\
         .....................\n\
         .....................\n\
         ........m............\n\
         ........m............\n\
         ........m............\n\
         ........m............\n\
         ........m............\n\
         ........m............\n\
         ........m............\n\
         ........m............\n"
    );
}

#[test]
fn test_all_function_patterns_and_qr_info() {
    let mut qr = QR::new(Version::Normal(7), ECLevel::L, false);
    qr.draw_all_function_patterns();
    qr.draw_version_info();
    qr.reserve_format_area();
    assert_eq!(
        qr.to_debug_str(),
        "\n\
         fffffffFm.........................VVvFfffffff\n\
         fFFFFFfFm.........................VvVFfFFFFFf\n\
         fFfffFfFm.........................VvVFfFfffFf\n\
         fFfffFfFm.........................VvvFfFfffFf\n\
         fFfffFfFm...........fffff.........vvvFfFfffFf\n\
         fFFFFFfFm...........fFFFf.........VVVFfFFFFFf\n\
         fffffffFfFfFfFfFfFfFfFfFfFfFfFfFfFfFfFfffffff\n\
         FFFFFFFFm...........fFFFf............FFFFFFFF\n\
         mmmmmmfmm...........fffff............mmmmmmmm\n\
         ......F......................................\n\
         ......f......................................\n\
         ......F......................................\n\
         ......f......................................\n\
         ......F......................................\n\
         ......f......................................\n\
         ......F......................................\n\
         ......f......................................\n\
         ......F......................................\n\
         ......f......................................\n\
         ......F......................................\n\
         ....fffff...........fffff...........fffff....\n\
         ....fFFFf...........fFFFf...........fFFFf....\n\
         ....fFfFf...........fFfFf...........fFfFf....\n\
         ....fFFFf...........fFFFf...........fFFFf....\n\
         ....fffff...........fffff...........fffff....\n\
         ......F......................................\n\
         ......f......................................\n\
         ......F......................................\n\
         ......f......................................\n\
         ......F......................................\n\
         ......f......................................\n\
         ......F......................................\n\
         ......f......................................\n\
         ......F......................................\n\
         VVVVvVf......................................\n\
         VvvvvVF......................................\n\
         vVVvvVf.............fffff...........fffff....\n\
         FFFFFFFFm...........fFFFf...........fFFFf....\n\
         fffffffFm...........fFfFf...........fFfFf....\n\
         fFFFFFfFm...........fFFFf...........fFFFf....\n\
         fFfffFfFm...........fffff...........fffff....\n\
         fFfffFfFm....................................\n\
         fFfffFfFm....................................\n\
         fFFFFFfFm....................................\n\
         fffffffFm....................................\n"
    );
}
