#![allow(non_snake_case)]
use gf_erasure::error::Error;
use gf_erasure::galois_field::Gf2p;

const DEFAULT_IRREDUCIBLE_POLYNOMIAL_DICT: [u8; 9] = [0x00, 0x03, 0x07, 0x0B, 0x13, 0x25, 0x43, 0x83, 0x1D];

#[test]
fn Gf2p_generate_power_log_table_test() {
    let res = Gf2p::new(3, 0x0B);
    if res.is_err() {
        println!("{:?}", res.err().unwrap());
        return;
    }
    let gf = res.unwrap();
    println!("{:?}", gf.power_table());
    println!("{:?}", gf.log_table());
}

#[test]
fn Gf2p_mul_test() {
    let res = Gf2p::new(8, 0x1B);
    if res.is_err() {
        println!("{:?}", res.err().unwrap());
        return;
    }
    let _dt = res.unwrap();
}

#[test]
fn Gf2p_add_test() {
    let res = Gf2p::new(3, 0x0B);
    if res.is_err() {
        println!("{:?}", res.err().unwrap());
        return;
    }
    let gf = res.unwrap();

    for x in 0x00u8..=7 {
        for y in 0x00u8..=7 {
            let quotient = gf.add(x, y);
            println!("{} + {} = {}", x, y, quotient);
        }
    }
}

#[test]
fn Gf2p_div_by_power_log_table_test() {
    let res = Gf2p::new(3, 0x0B);
    if res.is_err() {
        println!("{:?}", res.err().unwrap());
        return;
    }
    let gf = res.unwrap();

    for x in 0x00u8..=7 {
        for y in 0x01u8..=7 {
            let quotient = gf.div_by_power_log_table(x, y);
            println!("{} / {} = {}", x, y, quotient);
        }
    }
}

#[test]
fn Gf2p_diff_mul_cmp_test() {
    for w in 1u8..=8 {
        let res = Gf2p::new(w, DEFAULT_IRREDUCIBLE_POLYNOMIAL_DICT[w as usize]);
        if res.is_err() {
            println!("{:?}", res.err().unwrap());
            return;
        }
        let gf = res.unwrap();

        let max_n = ((1u16 << w as u16) - 1) as u8;

        for x in 0x00u8..=max_n {
            for y in 0x00u8..=max_n {
                let sum_direct = gf.mul(x, y);
                let sum_table = gf.mul_by_power_log_table(x, y);
                if sum_direct != sum_table {
                    println!("x: {}, y: {}: sum_direct: {} vs sum_table: {}", x, y, sum_direct, sum_table);
                }
                assert_eq!(sum_direct, sum_table);
            }
        }
    }
}

#[test]
fn Gf2p_all_generators_test() {
    let res = Gf2p::new(8, 0x1B);
    if res.is_err() {
        println!("{:?}", res.err().unwrap());
        return;
    }
    let gf = res.unwrap();
    let all_generators = gf.all_generators();
    let mut all_generators_string = "[".to_string();
    for (k, v) in all_generators.iter().enumerate() {
        all_generators_string += v.to_string().as_str();
        if k != all_generators.len() - 1 {
            all_generators_string += ",";
        }
    }
    all_generators_string += "]";

    assert_eq!(all_generators_string, "[3,5,6,9,11,14,17,18,19,20,23,24,25,26,28,30,31,33,34,35,39,\
    40,42,44,48,49,60,62,63,65,69,70,71,72,73,75,76,78,79,82,84,86,87,88,89,90,91,95,100,101,104,\
    105,109,110,112,113,118,119,121,122,123,126,129,132,134,135,136,138,142,143,144,147,149,150,152,\
    153,155,157,160,164,165,166,167,169,170,172,173,178,180,183,184,185,186,190,191,192,193,196,200,201,\
    206,207,208,214,215,218,220,221,222,226,227,229,230,231,233,234,235,238,240,241,244,245,246,248,251,253,254,255]");
}

#[test]
fn direct_and_table_products_agree_on_every_default_field() {
    assert_eq!(Gf2p::new(1, DEFAULT_IRREDUCIBLE_POLYNOMIAL_DICT[1]).err(), Some(Error::NoGeneratorFound));
    for w in 2u8..=8 {
        let gf = Gf2p::new(w, DEFAULT_IRREDUCIBLE_POLYNOMIAL_DICT[w as usize]).unwrap();
        let max_n = ((1u16 << w) - 1) as u8;
        for x in 1u8..=max_n {
            for y in 1u8..=max_n {
                assert_eq!(gf.mul(x, y), gf.mul_by_power_log_table(x, y));
            }
        }
    }
}

#[test]
fn new_rejects_orders_outside_one_to_eight() {
    assert_eq!(Gf2p::new(0, 0x03).err(), Some(Error::InvalidOrder));
    assert_eq!(Gf2p::new(9, 0x1D).err(), Some(Error::InvalidOrder));
}

#[test]
fn new_rejects_a_byte_of_the_wrong_degree() {
    assert_eq!(Gf2p::new(3, 0x03).err(), Some(Error::NoGeneratorFound));
    assert_eq!(Gf2p::new(3, 0x1B).err(), Some(Error::NoGeneratorFound));
}

#[test]
fn tables_of_gf8() {
    let gf = Gf2p::new(3, 0x0B).unwrap();
    assert_eq!(gf.power_table(), vec![1, 2, 4, 3, 6, 7, 5, 1]);
    assert_eq!(gf.log_table(), vec![0, 0, 1, 3, 2, 6, 4, 5]);
}

#[test]
fn tables_start_at_one_and_log_inverts_power() {
    for w in 2u8..=8 {
        let gf = Gf2p::new(w, DEFAULT_IRREDUCIBLE_POLYNOMIAL_DICT[w as usize]).unwrap();
        let power = gf.power_table();
        let log = gf.log_table();
        assert_eq!(power[0], 1);
        assert_eq!(log[1], 0);
        for i in 1..gf.get_element_count() - 1 {
            assert_eq!(log[power[i] as usize] as usize, i);
        }
    }
}

#[test]
fn addition_is_self_inverse_with_zero_identity() {
    let gf = Gf2p::new(8, 0x1D).unwrap();
    for x in 0u8..=255 {
        assert_eq!(gf.add(x, x), 0);
        assert_eq!(gf.add(x, 0), x);
        assert_eq!(gf.sub(x, x), 0);
    }
    assert_eq!(gf.add(0x53, 0xCA), 0x99);
    assert_eq!(gf.sub(0x53, 0xCA), 0x99);
}

#[test]
fn dividing_by_itself_gives_one() {
    for w in 2u8..=8 {
        let gf = Gf2p::new(w, DEFAULT_IRREDUCIBLE_POLYNOMIAL_DICT[w as usize]).unwrap();
        let max_n = gf.max_element();
        for x in 1u8..=max_n {
            let q = gf.div_by_power_log_table(x, x);
            assert_eq!(q, 1);
            assert_eq!(gf.mul_by_power_log_table(x, q), x);
        }
    }
}

#[test]
fn exact_products_and_quotients() {
    let aes = Gf2p::new(8, 0x1B).unwrap();
    assert_eq!(aes.mul(0x53, 0xCA), 0x01);
    assert_eq!(aes.mul_by_power_log_table(0x53, 0xCA), 0x01);
    let ec = Gf2p::new(8, 0x1D).unwrap();
    assert_eq!(ec.mul(2, 0x80), 0x1D);
    assert_eq!(ec.mul(3, 7), 9);
    assert_eq!(ec.mul(0, 7), 0);
    assert_eq!(ec.mul_by_power_log_table(7, 0), 0);
    let gf8 = Gf2p::new(3, 0x0B).unwrap();
    assert_eq!(gf8.mul(3, 5), 4);
    assert_eq!(gf8.div_by_power_log_table(3, 5), 6);
    assert_eq!(gf8.div_by_power_log_table(6, 3), 2);
    assert_eq!(gf8.div_by_power_log_table(0, 3), 0);
}

#[test]
fn generator_search() {
    let aes = Gf2p::new(8, 0x1B).unwrap();
    assert_eq!(aes.min_generator(), Some(3));
    assert_eq!(aes.all_generators().len(), 128);
    let ec = Gf2p::new(8, 0x1D).unwrap();
    assert_eq!(ec.min_generator(), Some(2));
    let gf8 = Gf2p::new(3, 0x0B).unwrap();
    assert_eq!(gf8.all_generators(), vec![2, 3, 4, 5, 6, 7]);
}

#[test]
fn element_bounds() {
    let gf8 = Gf2p::new(3, 0x0B).unwrap();
    assert_eq!(gf8.min_element(), 0);
    assert_eq!(gf8.max_element(), 7);
    assert_eq!(gf8.get_element_count(), 8);
    let ec = Gf2p::new(8, 0x1D).unwrap();
    assert_eq!(ec.max_element(), 255);
    assert_eq!(ec.get_element_count(), 256);
}
