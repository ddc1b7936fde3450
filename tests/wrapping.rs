use malachite_nz::wrapping::{
    i128_wrapping_abs, i16_wrapping_abs, i32_wrapping_abs, i64_wrapping_abs, i8_wrapping_abs,
    isize_wrapping_abs,
};

fn wrapping_abs_helper_i8() {
    let test = |n: i8, out: i8| {
        assert_eq!(i8_wrapping_abs(n), out);

        let mut n = n;
        n = i8_wrapping_abs(n);
        assert_eq!(n, out);
    };
    test(0, 0);
    test(1, 1);
    test(100, 100);
    test(i8::MAX, i8::MAX);
    test(-1, 1);
    test(-100, 100);
    test(i8::MIN, i8::MIN);
}

fn wrapping_abs_properties_helper_i8() {
    let samples: [i8; 9] = [0, 1, -1, 7, -7, i8::MAX, i8::MIN, i8::MIN + 1, i8::MAX - 1];
    for &n in samples.iter() {
        let mut abs = n;
        abs = i8_wrapping_abs(abs);
        assert_eq!(abs, i8_wrapping_abs(n));
        assert_eq!(i8_wrapping_abs(abs), abs);
        if n != i8::MIN {
            assert_eq!(n.abs(), abs);
        }
        assert_eq!(abs == n, n >= 0 || n == i8::MIN);
    }
}

fn wrapping_abs_helper_i16() {
    let test = |n: i16, out: i16| {
        assert_eq!(i16_wrapping_abs(n), out);

        let mut n = n;
        n = i16_wrapping_abs(n);
        assert_eq!(n, out);
    };
    test(0, 0);
    test(1, 1);
    test(100, 100);
    test(i16::MAX, i16::MAX);
    test(-1, 1);
    test(-100, 100);
    test(i16::MIN, i16::MIN);
}

fn wrapping_abs_properties_helper_i16() {
    let samples: [i16; 9] = [0, 1, -1, 7, -7, i16::MAX, i16::MIN, i16::MIN + 1, i16::MAX - 1];
    for &n in samples.iter() {
        let mut abs = n;
        abs = i16_wrapping_abs(abs);
        assert_eq!(abs, i16_wrapping_abs(n));
        assert_eq!(i16_wrapping_abs(abs), abs);
        if n != i16::MIN {
            assert_eq!(n.abs(), abs);
        }
        assert_eq!(abs == n, n >= 0 || n == i16::MIN);
    }
}

fn wrapping_abs_helper_i32() {
    let test = |n: i32, out: i32| {
        assert_eq!(i32_wrapping_abs(n), out);

        let mut n = n;
        n = i32_wrapping_abs(n);
        assert_eq!(n, out);
    };
    test(0, 0);
    test(1, 1);
    test(100, 100);
    test(i32::MAX, i32::MAX);
    test(-1, 1);
    test(-100, 100);
    test(i32::MIN, i32::MIN);
}

fn wrapping_abs_properties_helper_i32() {
    let samples: [i32; 9] = [0, 1, -1, 7, -7, i32::MAX, i32::MIN, i32::MIN + 1, i32::MAX - 1];
    for &n in samples.iter() {
        let mut abs = n;
        abs = i32_wrapping_abs(abs);
        assert_eq!(abs, i32_wrapping_abs(n));
        assert_eq!(i32_wrapping_abs(abs), abs);
        if n != i32::MIN {
            assert_eq!(n.abs(), abs);
        }
        assert_eq!(abs == n, n >= 0 || n == i32::MIN);
    }
}

fn wrapping_abs_helper_i64() {
    let test = |n: i64, out: i64| {
        assert_eq!(i64_wrapping_abs(n), out);

        let mut n = n;
        n = i64_wrapping_abs(n);
        assert_eq!(n, out);
    };
    test(0, 0);
    test(1, 1);
    test(100, 100);
    test(i64::MAX, i64::MAX);
    test(-1, 1);
    test(-100, 100);
    test(i64::MIN, i64::MIN);
}

fn wrapping_abs_properties_helper_i64() {
    let samples: [i64; 9] = [0, 1, -1, 7, -7, i64::MAX, i64::MIN, i64::MIN + 1, i64::MAX - 1];
    for &n in samples.iter() {
        let mut abs = n;
        abs = i64_wrapping_abs(abs);
        assert_eq!(abs, i64_wrapping_abs(n));
        assert_eq!(i64_wrapping_abs(abs), abs);
        if n != i64::MIN {
            assert_eq!(n.abs(), abs);
        }
        assert_eq!(abs == n, n >= 0 || n == i64::MIN);
    }
}

fn wrapping_abs_helper_i128() {
    let test = |n: i128, out: i128| {
        assert_eq!(i128_wrapping_abs(n), out);

        let mut n = n;
        n = i128_wrapping_abs(n);
        assert_eq!(n, out);
    };
    test(0, 0);
    test(1, 1);
    test(100, 100);
    test(i128::MAX, i128::MAX);
    test(-1, 1);
    test(-100, 100);
    test(i128::MIN, i128::MIN);
}

fn wrapping_abs_properties_helper_i128() {
    let samples: [i128; 9] = [0, 1, -1, 7, -7, i128::MAX, i128::MIN, i128::MIN + 1, i128::MAX - 1];
    for &n in samples.iter() {
        let mut abs = n;
        abs = i128_wrapping_abs(abs);
        assert_eq!(abs, i128_wrapping_abs(n));
        assert_eq!(i128_wrapping_abs(abs), abs);
        if n != i128::MIN {
            assert_eq!(n.abs(), abs);
        }
        assert_eq!(abs == n, n >= 0 || n == i128::MIN);
    }
}

fn wrapping_abs_helper_isize() {
    let test = |n: isize, out: isize| {
        assert_eq!(isize_wrapping_abs(n), out);

        let mut n = n;
        n = isize_wrapping_abs(n);
        assert_eq!(n, out);
    };
    test(0, 0);
    test(1, 1);
    test(100, 100);
    test(isize::MAX, isize::MAX);
    test(-1, 1);
    test(-100, 100);
    test(isize::MIN, isize::MIN);
}

fn wrapping_abs_properties_helper_isize() {
    let samples: [isize; 9] = [0, 1, -1, 7, -7, isize::MAX, isize::MIN, isize::MIN + 1, isize::MAX - 1];
    for &n in samples.iter() {
        let mut abs = n;
        abs = isize_wrapping_abs(abs);
        assert_eq!(abs, isize_wrapping_abs(n));
        assert_eq!(isize_wrapping_abs(abs), abs);
        if n != isize::MIN {
            assert_eq!(n.abs(), abs);
        }
        assert_eq!(abs == n, n >= 0 || n == isize::MIN);
    }
}

#[test]
fn test_wrapping_abs() {
    wrapping_abs_helper_i8();
    wrapping_abs_helper_i16();
    wrapping_abs_helper_i32();
    wrapping_abs_helper_i64();
    wrapping_abs_helper_i128();
    wrapping_abs_helper_isize();
}

#[test]
fn wrapping_abs_properties() {
    wrapping_abs_properties_helper_i8();
    wrapping_abs_properties_helper_i16();
    wrapping_abs_properties_helper_i32();
    wrapping_abs_properties_helper_i64();
    wrapping_abs_properties_helper_i128();
    wrapping_abs_properties_helper_isize();
}
